use vstd::prelude::*;
use crate::grammar::letter::{Letter, SpecLetter, seq_view, clone_letters};
use crate::utils::{closed_under, least_closed, lemma_least_closed_init, lemma_least_closed_step, lemma_least_closed_min};
use super::dfa::{DFA, first_target, edges_view};
use super::nfa::{ascending, falses};
use super::subset::good_state;
use crate::utils::count::{count_true, count_marks, lemma_count_true_set, lemma_count_marks_le, lemma_count_marks_set};

verus! {

impl DFA {
    /// Where `p` goes on `x`: the first transition of its row on `x`.
    pub open spec fn target(&self, p: usize, x: SpecLetter) -> Option<usize> {
        first_target(self.row(p as int), x)
    }

    /// `p` is a final state.
    pub open spec fn is_final(&self, p: usize) -> bool {
        self.end@.contains(p)
    }

    /// `p` and `q` differ at once: one is final and the other is not, or some letter of
    /// the alphabet has a transition from one of them only.
    pub open spec fn differ_now(&self, p: usize, q: usize) -> bool {
        ||| self.is_final(p) != self.is_final(q)
        ||| exists|t: int| 0 <= t < self.letters@.len()
            && (#[trigger] self.target(p, self.letters@[t]@)).is_none() != self.target(q, self.letters@[t]@).is_none()
    }

    /// The pairs of states that differ at once.
    pub open spec fn base_pairs(&self) -> Set<(usize, usize)> {
        Set::new(|pq: (usize, usize)| pq.0 < self.edges@.len() && pq.1 < self.edges@.len() && self.differ_now(pq.0, pq.1))
    }

    /// One letter of the alphabet leads from the pair `b` to the pair `a`.
    pub open spec fn pair_step(&self, a: (usize, usize), b: (usize, usize)) -> bool {
        &&& b.0 < self.edges@.len()
        &&& b.1 < self.edges@.len()
        &&& exists|t: int| 0 <= t < self.letters@.len()
                && #[trigger] self.target(b.0, self.letters@[t]@) == Some(a.0) && self.target(b.1, self.letters@[t]@) == Some(a.1)
    }

    /// The relation `pair_step` as a function.
    pub open spec fn pair_back(&self) -> spec_fn((usize, usize), (usize, usize)) -> bool {
        |a: (usize, usize), b: (usize, usize)| self.pair_step(a, b)
    }

    /// The pairs of states that some word tells apart.
    pub open spec fn distinguishable(&self) -> Set<(usize, usize)> {
        least_closed(self.base_pairs(), self.pair_back())
    }

    /// No word tells `p` and `q` apart.
    pub open spec fn equivalent(&self, p: usize, q: usize) -> bool {
        !self.distinguishable().contains((p, q))
    }

    /// The states that no word tells apart from `p`.
    pub open spec fn class_of(&self, p: usize) -> Set<usize> {
        Set::new(|q: usize| q < self.edges@.len() && self.equivalent(p, q))
    }
}

/// The first transition on `x` is a transition of the row.
pub proof fn lemma_first_target_in(row: Seq<(SpecLetter, usize)>, x: SpecLetter)
    ensures
        first_target(row, x) matches Some(v) ==> exists|i: int| 0 <= i < row.len() && row[i] == (x, v),
    decreases row.len(),
{
    if row.len() > 0 && row[0].0 != x {
        lemma_first_target_in(row.drop_first(), x);
        if first_target(row, x) is Some {
            let v = first_target(row, x)->0;
            let i = choose|i: int| 0 <= i < row.drop_first().len() && row.drop_first()[i] == (x, v);
            assert(row[i + 1] == (x, v));
        }
    }
}

/// In a well-formed automaton every transition leads to one of its states.
pub proof fn lemma_target_in_range(d: &DFA, p: usize, x: SpecLetter)
    requires
        d.wf(),
        p < d.edges@.len(),
    ensures
        d.target(p, x) matches Some(v) ==> v < d.edges@.len(),
{
    lemma_first_target_in(d.row(p as int), x);
    if d.target(p, x) is Some {
        let v = d.target(p, x)->0;
        let i = choose|i: int| 0 <= i < d.row(p as int).len() && d.row(p as int)[i] == (x, v);
        assert(d.row(p as int)[i].1 == d.edges@[p as int]@[i].1);
    }
}

/// Telling apart is irreflexive.
pub proof fn lemma_equivalent_refl(d: &DFA, p: usize)
    ensures
        d.equivalent(p, p),
{
    let s = Set::new(|pq: (usize, usize)| pq.0 != pq.1);
    assert(d.base_pairs().subset_of(s)) by {
        assert forall|pq: (usize, usize)| d.base_pairs().contains(pq) implies s.contains(pq) by {
            if pq.0 == pq.1 {
                assert(!d.differ_now(pq.0, pq.1));
            }
        }
    }
    assert(closed_under(d.pair_back(), s)) by {
        assert forall|a: (usize, usize), b: (usize, usize)| s.contains(a) && #[trigger] (d.pair_back())(a, b) implies s.contains(b) by {
            let t = choose|t: int| 0 <= t < d.letters@.len()
                && #[trigger] d.target(b.0, d.letters@[t]@) == Some(a.0) && d.target(b.1, d.letters@[t]@) == Some(a.1);
        }
    }
    lemma_least_closed_min(d.base_pairs(), d.pair_back(), s);
}

/// Telling apart is symmetric.
pub proof fn lemma_equivalent_sym(d: &DFA, p: usize, q: usize)
    ensures
        d.equivalent(p, q) == d.equivalent(q, p),
{
    let s = Set::new(|pq: (usize, usize)| d.distinguishable().contains((pq.1, pq.0)));
    assert(d.base_pairs().subset_of(s)) by {
        assert forall|pq: (usize, usize)| d.base_pairs().contains(pq) implies s.contains(pq) by {
            if d.is_final(pq.0) == d.is_final(pq.1) {
                let t = choose|t: int| 0 <= t < d.letters@.len()
                    && (#[trigger] d.target(pq.0, d.letters@[t]@)).is_none() != d.target(pq.1, d.letters@[t]@).is_none();
                assert(d.differ_now(pq.1, pq.0));
            }
            assert(d.base_pairs().contains((pq.1, pq.0)));
            lemma_least_closed_init(d.base_pairs(), d.pair_back(), (pq.1, pq.0));
        }
    }
    assert(closed_under(d.pair_back(), s)) by {
        assert forall|a: (usize, usize), b: (usize, usize)| s.contains(a) && #[trigger] (d.pair_back())(a, b) implies s.contains(b) by {
            let t = choose|t: int| 0 <= t < d.letters@.len()
                && #[trigger] d.target(b.0, d.letters@[t]@) == Some(a.0) && d.target(b.1, d.letters@[t]@) == Some(a.1);
            assert(d.target(b.1, d.letters@[t]@) == Some(a.1));
            assert(d.pair_step((a.1, a.0), (b.1, b.0)));
            assert((d.pair_back())((a.1, a.0), (b.1, b.0)));
            lemma_least_closed_step(d.base_pairs(), d.pair_back(), (a.1, a.0), (b.1, b.0));
        }
    }
    lemma_least_closed_min(d.base_pairs(), d.pair_back(), s);
    assert(s.contains((q, p)) ==> d.distinguishable().contains((p, q)));
    assert(d.distinguishable().contains((q, p)) ==> s.contains((p, q)));
}

/// Every state `m` below `n` is told apart from `a` or from `c`.
pub open spec fn split_through(dist: Set<(usize, usize)>, n: nat, a: usize, c: usize) -> bool {
    forall|m: usize| m < n ==> dist.contains((a, m)) || #[trigger] dist.contains((m, c))
}

/// Telling apart goes through any third state: what tells `p` from `r` tells one of
/// them from `q`.
pub proof fn lemma_equivalent_trans(d: &DFA, p: usize, q: usize, r: usize)
    requires
        d.wf(),
        d.equivalent(p, q),
        d.equivalent(q, r),
        q < d.edges@.len(),
    ensures
        d.equivalent(p, r),
{
    let n = d.edges@.len();
    let dist = d.distinguishable();
    let s = Set::new(|pr: (usize, usize)| split_through(dist, n, pr.0, pr.1));
    assert(d.base_pairs().subset_of(s)) by {
        assert forall|pr: (usize, usize)| d.base_pairs().contains(pr) implies s.contains(pr) by {
            assert forall|m: usize| m < n implies dist.contains((pr.0, m)) || #[trigger] dist.contains((m, pr.1)) by {
                if d.is_final(pr.0) != d.is_final(pr.1) {
                    if d.is_final(m) != d.is_final(pr.0) {
                        assert(d.differ_now(pr.0, m));
                        assert(d.base_pairs().contains((pr.0, m)));
                        lemma_least_closed_init(d.base_pairs(), d.pair_back(), (pr.0, m));
                    } else {
                        assert(d.differ_now(m, pr.1));
                        assert(d.base_pairs().contains((m, pr.1)));
                        lemma_least_closed_init(d.base_pairs(), d.pair_back(), (m, pr.1));
                    }
                } else {
                    let t = choose|t: int| 0 <= t < d.letters@.len()
                        && (#[trigger] d.target(pr.0, d.letters@[t]@)).is_none() != d.target(pr.1, d.letters@[t]@).is_none();
                    if d.target(m, d.letters@[t]@).is_none() != d.target(pr.0, d.letters@[t]@).is_none() {
                        assert(d.differ_now(pr.0, m));
                        assert(d.base_pairs().contains((pr.0, m)));
                        lemma_least_closed_init(d.base_pairs(), d.pair_back(), (pr.0, m));
                    } else {
                        assert(d.differ_now(m, pr.1));
                        assert(d.base_pairs().contains((m, pr.1)));
                        lemma_least_closed_init(d.base_pairs(), d.pair_back(), (m, pr.1));
                    }
                }
            }
        }
    }
    assert(closed_under(d.pair_back(), s)) by {
        assert forall|a: (usize, usize), b: (usize, usize)| s.contains(a) && #[trigger] (d.pair_back())(a, b) implies s.contains(b) by {
            let t = choose|t: int| 0 <= t < d.letters@.len()
                && #[trigger] d.target(b.0, d.letters@[t]@) == Some(a.0) && d.target(b.1, d.letters@[t]@) == Some(a.1);
            let x = d.letters@[t]@;
            assert forall|m: usize| m < n implies dist.contains((b.0, m)) || #[trigger] dist.contains((m, b.1)) by {
                match d.target(m, x) {
                    None => {
                        assert(d.differ_now(b.0, m));
                        assert(d.base_pairs().contains((b.0, m)));
                        lemma_least_closed_init(d.base_pairs(), d.pair_back(), (b.0, m));
                    },
                    Some(m2) => {
                        lemma_target_in_range(d, m, x);
                        assert(dist.contains((a.0, m2)) || dist.contains((m2, a.1)));
                        if dist.contains((a.0, m2)) {
                            assert(d.pair_step((a.0, m2), (b.0, m)));
                            assert((d.pair_back())((a.0, m2), (b.0, m)));
                            lemma_least_closed_step(d.base_pairs(), d.pair_back(), (a.0, m2), (b.0, m));
                        } else {
                            assert(d.target(m, d.letters@[t]@) == Some(m2));
                            assert(d.pair_step((m2, a.1), (m, b.1)));
                            assert((d.pair_back())((m2, a.1), (m, b.1)));
                            lemma_least_closed_step(d.base_pairs(), d.pair_back(), (m2, a.1), (m, b.1));
                        }
                    },
                }
            }
        }
    }
    lemma_least_closed_min(d.base_pairs(), d.pair_back(), s);
    if dist.contains((p, r)) {
        assert(s.contains((p, r)));
        assert(split_through(dist, n, p, r));
        assert(dist.contains((p, q)) || dist.contains((q, r)));
    }
}


/// The entry of `m` for the pair `(a, b)`.
pub open spec fn marked(m: Seq<Vec<bool>>, a: usize, b: usize) -> bool {
    m[a as int]@[b as int]
}

/// `m` has `n` rows of `n` entries.
pub open spec fn square(m: Seq<Vec<bool>>, n: nat) -> bool {
    &&& m.len() == n
    &&& forall|i: int| 0 <= i < n ==> (#[trigger] m[i])@.len() == n
}

impl DFA {
    /// Some letter of the alphabet leads from `p` and `q` to a pair marked in `m`.
    pub open spec fn leads_marked(&self, m: Seq<Vec<bool>>, p: usize, q: usize) -> bool {
        exists|t: int| 0 <= t < self.letters@.len()
            && (#[trigger] self.target(p, self.letters@[t]@)) is Some
            && self.target(q, self.letters@[t]@) is Some
            && marked(m, self.target(p, self.letters@[t]@)->0, self.target(q, self.letters@[t]@)->0)
    }

    /// Whether `p` is a final state.
    fn final_state(&self, p: usize) -> (res: bool)
        ensures
            res == self.is_final(p),
    {
        let mut i: usize = 0;
        while i < self.end.len()
            invariant
                i <= self.end@.len(),
                forall|k: int| 0 <= k < i ==> self.end@[k] != p,
            decreases self.end@.len() - i,
        {
            if self.end[i] == p {
                return true;
            }
            i = i + 1;
        }
        false
    }

    /// Whether `p` and `q` differ at once.
    fn differ_at_once(&self, p: usize, q: usize) -> (res: bool)
        requires
            p < self.edges@.len(),
            q < self.edges@.len(),
        ensures
            res == self.differ_now(p, q),
    {
        if self.final_state(p) != self.final_state(q) {
            return true;
        }
        let mut t: usize = 0;
        while t < self.letters.len()
            invariant
                p < self.edges@.len(),
                q < self.edges@.len(),
                t <= self.letters@.len(),
                forall|k: int| 0 <= k < t ==> (#[trigger] self.target(p, self.letters@[k]@)).is_none() == self.target(q, self.letters@[k]@).is_none(),
            decreases self.letters@.len() - t,
        {
            let a = self.step_single(p, self.letters[t].clone());
            let b = self.step_single(q, self.letters[t].clone());
            if a.is_none() != b.is_none() {
                assert((self.target(p, self.letters@[t as int]@)).is_none() != self.target(q, self.letters@[t as int]@).is_none());
                return true;
            }
            t = t + 1;
        }
        false
    }

    /// Whether some letter leads from `p` and `q` to a pair marked in `mark`.
    fn leads_to_marked(&self, mark: &Vec<Vec<bool>>, p: usize, q: usize) -> (res: bool)
        requires
            self.wf(),
            p < self.edges@.len(),
            q < self.edges@.len(),
            square(mark@, self.edges@.len()),
        ensures
            res == self.leads_marked(mark@, p, q),
    {
        let mut t: usize = 0;
        while t < self.letters.len()
            invariant
                self.wf(),
                p < self.edges@.len(),
                q < self.edges@.len(),
                square(mark@, self.edges@.len()),
                t <= self.letters@.len(),
                forall|k: int| 0 <= k < t ==> !((#[trigger] self.target(p, self.letters@[k]@)) is Some
                    && self.target(q, self.letters@[k]@) is Some
                    && marked(mark@, self.target(p, self.letters@[k]@)->0, self.target(q, self.letters@[k]@)->0)),
            decreases self.letters@.len() - t,
        {
            let a = self.step_single(p, self.letters[t].clone());
            let b = self.step_single(q, self.letters[t].clone());
            proof {
                lemma_target_in_range(self, p, self.letters@[t as int]@);
                lemma_target_in_range(self, q, self.letters@[t as int]@);
            }
            match (a, b) {
                (Some(x), Some(y)) => {
                    if mark[x][y] {
                        return true;
                    }
                },
                _ => {},
            }
            t = t + 1;
        }
        false
    }

    /// The table of the pairs of states that some word tells apart.
    pub fn distinguish_table(&self) -> (mark: Vec<Vec<bool>>)
        requires
            self.wf(),
        ensures
            square(mark@, self.edges@.len()),
            forall|p: usize, q: usize| p < self.edges@.len() && q < self.edges@.len() ==>
                (#[trigger] marked(mark@, p, q) <==> self.distinguishable().contains((p, q))),
    {
        let n = self.edges.len();
        let ghost dist = self.distinguishable();
        let mut mark: Vec<Vec<bool>> = Vec::new();
        for p in 0..n
            invariant
                n == self.edges@.len(),
                mark@.len() == p,
                forall|i: int| 0 <= i < p ==> (#[trigger] mark@[i])@.len() == n,
                forall|a: usize, b: usize| a < p && b < n ==> (#[trigger] marked(mark@, a, b) <==> self.differ_now(a, b)),
        {
            let mut r: Vec<bool> = Vec::new();
            for q in 0..n
                invariant
                    n == self.edges@.len(),
                    p < n,
                    r@.len() == q,
                    forall|b: int| 0 <= b < q ==> r@[b] == self.differ_now(p, b as usize),
            {
                let d = self.differ_at_once(p, q);
                r.push(d);
            }
            let ghost before = mark@;
            mark.push(r);
            proof {
                assert forall|a: usize, b: usize| a < p + 1 && b < n implies (#[trigger] marked(mark@, a, b) <==> self.differ_now(a, b)) by {
                    if a < p {
                        assert(mark@[a as int] == before[a as int]);
                        assert(marked(before, a, b) <==> self.differ_now(a, b));
                    }
                }
            }
        }
        proof {
            assert forall|a: usize, b: usize| a < n && b < n && #[trigger] marked(mark@, a, b) implies dist.contains((a, b)) by {
                assert(self.base_pairs().contains((a, b)));
                lemma_least_closed_init(self.base_pairs(), self.pair_back(), (a, b));
            }
            lemma_count_marks_le(mark@, n as nat);
        }
        let ghost mut count: nat = count_marks(mark@);
        let mut changed = true;
        while changed
            invariant
                n == self.edges@.len(),
                self.wf(),
                dist == self.distinguishable(),
                square(mark@, n as nat),
                forall|a: usize, b: usize| a < n && b < n && #[trigger] marked(mark@, a, b) ==> dist.contains((a, b)),
                forall|a: usize, b: usize| a < n && b < n && self.differ_now(a, b) ==> #[trigger] marked(mark@, a, b),
                count == count_marks(mark@),
                count <= n * n,
                !changed ==> forall|a: usize, b: usize| a < n && b < n && self.leads_marked(mark@, a, b) ==> #[trigger] marked(mark@, a, b),
            decreases (n * n - count) + if changed { 1int } else { 0int },
        {
            changed = false;
            let ghost m0 = mark@;
            let ghost c0 = count;
            for p in 0..n
                invariant
                    n == self.edges@.len(),
                    self.wf(),
                    dist == self.distinguishable(),
                    square(mark@, n as nat),
                    forall|a: usize, b: usize| a < n && b < n && #[trigger] marked(mark@, a, b) ==> dist.contains((a, b)),
                    forall|a: usize, b: usize| a < n && b < n && self.differ_now(a, b) ==> #[trigger] marked(mark@, a, b),
                    count == count_marks(mark@),
                    count <= n * n,
                    changed ==> count > c0,
                    !changed ==> count == c0,
                    !changed ==> mark@ == m0,
                    !changed ==> forall|a: usize, b: usize| a < p && b < n && self.leads_marked(m0, a, b) ==> #[trigger] marked(m0, a, b),
            {
                for q in 0..n
                    invariant
                        n == self.edges@.len(),
                        self.wf(),
                        p < n,
                        dist == self.distinguishable(),
                        square(mark@, n as nat),
                        forall|a: usize, b: usize| a < n && b < n && #[trigger] marked(mark@, a, b) ==> dist.contains((a, b)),
                        forall|a: usize, b: usize| a < n && b < n && self.differ_now(a, b) ==> #[trigger] marked(mark@, a, b),
                        count == count_marks(mark@),
                        count <= n * n,
                        changed ==> count > c0,
                        !changed ==> count == c0,
                        !changed ==> mark@ == m0,
                        !changed ==> forall|a: usize, b: usize| a < p && b < n && self.leads_marked(m0, a, b) ==> #[trigger] marked(m0, a, b),
                        !changed ==> forall|b: usize| b < q && self.leads_marked(m0, p, b) ==> #[trigger] marked(m0, p, b),
                {
                    if !mark[p][q] && self.leads_to_marked(&mark, p, q) {
                        let ghost m1 = mark@;
                        let mut r = mark[p].clone();
                        proof {
                            assert(r@ =~= m1[p as int]@);
                            lemma_count_true_set(r@, q as int);
                        }
                        r.set(q, true);
                        mark.set(p, r);
                        proof {
                            lemma_count_marks_set(m1, p as int, r);
                            count = count + 1;
                            lemma_count_marks_le(mark@, n as nat);
                            let t = choose|t: int| 0 <= t < self.letters@.len()
                                && (#[trigger] self.target(p, self.letters@[t]@)) is Some
                                && self.target(q, self.letters@[t]@) is Some
                                && marked(m1, self.target(p, self.letters@[t]@)->0, self.target(q, self.letters@[t]@)->0);
                            let x = self.target(p, self.letters@[t]@)->0;
                            let y = self.target(q, self.letters@[t]@)->0;
                            lemma_target_in_range(self, p, self.letters@[t]@);
                            lemma_target_in_range(self, q, self.letters@[t]@);
                            assert(dist.contains((x, y)));
                            assert(self.pair_step((x, y), (p, q)));
                            lemma_least_closed_step(self.base_pairs(), self.pair_back(), (x, y), (p, q));
                            assert forall|a: usize, b: usize| a < n && b < n && #[trigger] marked(mark@, a, b) implies dist.contains((a, b)) by {
                                if a != p || b != q {
                                    assert(marked(m1, a, b));
                                }
                            }
                            assert forall|a: usize, b: usize| a < n && b < n && self.differ_now(a, b) implies #[trigger] marked(mark@, a, b) by {
                                assert(marked(m1, a, b));
                                if a == p {
                                    assert(mark@[a as int]@[b as int] == m1[a as int]@.update(q as int, true)[b as int]);
                                }
                            }
                        }
                        changed = true;
                    }
                }
            }
        }
        proof {
            let s = Set::new(|ab: (usize, usize)| ab.0 < n && ab.1 < n && marked(mark@, ab.0, ab.1));
            assert(self.base_pairs().subset_of(s));
            assert(closed_under(self.pair_back(), s)) by {
                assert forall|a: (usize, usize), b: (usize, usize)| s.contains(a) && #[trigger] (self.pair_back())(a, b) implies s.contains(b) by {
                    assert(self.pair_step(a, b));
                    let t = choose|t: int| 0 <= t < self.letters@.len()
                        && #[trigger] self.target(b.0, self.letters@[t]@) == Some(a.0) && self.target(b.1, self.letters@[t]@) == Some(a.1);
                    assert(self.leads_marked(mark@, b.0, b.1));
                }
            }
            lemma_least_closed_min(self.base_pairs(), self.pair_back(), s);
        }
        mark
    }
}

/// The position of the block that holds `x`.
pub open spec fn block_of(blocks: Seq<Vec<usize>>, x: usize) -> int {
    choose|i: int| 0 <= i < blocks.len() && blocks[i]@.contains(x)
}

/// `owner` names a block that holds `q`.
pub open spec fn in_owner_block(blocks: Seq<Vec<usize>>, owner: Seq<usize>, q: usize) -> bool {
    owner[q as int] < blocks.len() && blocks[owner[q as int] as int]@.contains(q)
}

/// The blocks partition the states below `n` into classes of states that no word
/// tells apart, each block ascending, and `owner` gives the block of each state.
pub open spec fn partition_ok(d: &DFA, blocks: Seq<Vec<usize>>, owner: Seq<usize>) -> bool {
    let n = d.edges@.len();
    &&& owner.len() == n
    &&& forall|i: int| 0 <= i < blocks.len() ==> good_state(#[trigger] blocks[i]@, n)
    &&& forall|i: int| 0 <= i < blocks.len() ==> (#[trigger] blocks[i])@.len() > 0
    &&& forall|i: int| 0 <= i < blocks.len() ==> (#[trigger] blocks[i])@.to_set() == d.class_of(blocks[i]@[0])
    &&& forall|p: usize| p < n ==> #[trigger] in_owner_block(blocks, owner, p)
    &&& forall|i: int, p: usize| 0 <= i < blocks.len() && #[trigger] blocks[i]@.contains(p) ==> p < n && owner[p as int] == i
}

impl DFA {
    /// The transitions of the state that stands for the block of `rep`: for each letter in
    /// turn on which `rep` has a transition, the letter and the block of its target.
    pub open spec fn min_row(&self, blocks: Seq<Vec<usize>>, rep: usize, ls: Seq<SpecLetter>) -> Seq<(SpecLetter, usize)>
        decreases ls.len(),
    {
        if ls.len() == 0 {
            Seq::empty()
        } else {
            let prev = self.min_row(blocks, rep, ls.drop_last());
            match self.target(rep, ls.last()) {
                Some(x) => prev.push((ls.last(), block_of(blocks, x) as usize)),
                None => prev,
            }
        }
    }

    /// `s` holds a final state.
    pub open spec fn touches_final(&self, s: Set<usize>) -> bool {
        exists|x: usize| s.contains(x) && #[trigger] self.end@.contains(x)
    }

    /// Whether the block `s` holds a final state.
    fn holds_final(&self, s: &Vec<usize>) -> (res: bool)
        ensures
            res == self.touches_final(s@.to_set()),
    {
        let mut i: usize = 0;
        while i < s.len()
            invariant
                i <= s@.len(),
                forall|k: int| 0 <= k < i ==> !self.end@.contains(#[trigger] s@[k]),
            decreases s@.len() - i,
        {
            if self.final_state(s[i]) {
                proof {
                    assert(s@.contains(s@[i as int]));
                    assert(s@.to_set().contains(s@[i as int]));
                }
                return true;
            }
            i = i + 1;
        }
        proof {
            assert forall|x: usize| s@.to_set().contains(x) implies !#[trigger] self.end@.contains(x) by {
                let k = choose|k: int| 0 <= k < s@.len() && s@[k] == x;
            }
        }
        false
    }

    /// The classes of states that no word tells apart, ordered by their least state.
    fn equivalence_blocks(&self, mark: &Vec<Vec<bool>>) -> (res: (Vec<Vec<usize>>, Vec<usize>))
        requires
            self.wf(),
            square(mark@, self.edges@.len()),
            forall|p: usize, q: usize| p < self.edges@.len() && q < self.edges@.len() ==>
                (#[trigger] marked(mark@, p, q) <==> self.distinguishable().contains((p, q))),
        ensures
            partition_ok(self, res.0@, res.1@),
            forall|i: int, j: int| 0 <= i < j < res.0@.len() ==> res.0@[i]@[0] < res.0@[j]@[0],
    {
        let n = self.edges.len();
        let mut assigned = falses(n);
        let mut owner: Vec<usize> = Vec::new();
        for k in 0..n
            invariant
                owner@.len() == k,
        {
            owner.push(0);
        }
        let mut blocks: Vec<Vec<usize>> = Vec::new();
        for p in 0..n
            invariant
                n == self.edges@.len(),
                self.wf(),
                square(mark@, n as nat),
                forall|a: usize, b: usize| a < n && b < n ==> (#[trigger] marked(mark@, a, b) <==> self.distinguishable().contains((a, b))),
                assigned@.len() == n,
                owner@.len() == n,
                forall|q: int| 0 <= q < p ==> assigned@[q],
                forall|i: int| 0 <= i < blocks@.len() ==> good_state(#[trigger] blocks@[i]@, n as nat),
                forall|i: int| 0 <= i < blocks@.len() ==> (#[trigger] blocks@[i])@.len() > 0,
                forall|i: int| 0 <= i < blocks@.len() ==> (#[trigger] blocks@[i])@[0] < p,
                forall|i: int, j: int| 0 <= i < j < blocks@.len() ==> blocks@[i]@[0] < blocks@[j]@[0],
                forall|i: int| 0 <= i < blocks@.len() ==> (#[trigger] blocks@[i])@.to_set() == self.class_of(blocks@[i]@[0]),
                forall|q: usize| q < n && assigned@[q as int] ==> #[trigger] in_owner_block(blocks@, owner@, q),
                forall|q: usize| q < n && !assigned@[q as int] ==> forall|i: int| 0 <= i < blocks@.len() ==> !(#[trigger] blocks@[i])@.contains(q),
                forall|i: int, q: usize| 0 <= i < blocks@.len() && #[trigger] blocks@[i]@.contains(q) ==> q < n && owner@[q as int] == i,
        {
            if !assigned[p] {
                proof {
                    assert forall|q: usize| q < n && self.equivalent(p, q) implies !assigned@[q as int] by {
                        if assigned@[q as int] {
                            assert(in_owner_block(blocks@, owner@, q));
                            let i = owner@[q as int] as int;
                            let rep = blocks@[i]@[0];
                            assert(blocks@[i]@.contains(q));
                            assert(blocks@[i]@.to_set().contains(q));
                            assert(self.equivalent(rep, q));
                            lemma_equivalent_sym(self, p, q);
                            lemma_equivalent_trans(self, rep, q, p);
                            assert(self.class_of(rep).contains(p));
                            assert(blocks@[i]@.to_set().contains(p));
                            assert(blocks@[i]@.contains(p));
                        }
                    }
                }
                let b = blocks.len();
                let mut block: Vec<usize> = Vec::new();
                for q in p..n
                    invariant
                        n == self.edges@.len(),
                        p < n,
                        b == blocks@.len(),
                        square(mark@, n as nat),
                        forall|a: usize, c: usize| a < n && c < n ==> (#[trigger] marked(mark@, a, c) <==> self.distinguishable().contains((a, c))),
                        assigned@.len() == n,
                        owner@.len() == n,
                        forall|x: usize| x < n && self.equivalent(p, x) && x >= q ==> !assigned@[x as int],
                        forall|x: int| 0 <= x < p ==> assigned@[x],
                        forall|k: int| 0 <= k < block@.len() ==> p <= #[trigger] block@[k] < q,
                        forall|k: int, m: int| 0 <= k < m < block@.len() ==> block@[k] < block@[m],
                        forall|x: usize| p <= x < q ==> (block@.contains(x) <==> self.equivalent(p, x)),
                        forall|x: usize| x < n && assigned@[x as int] && !block@.contains(x) ==> #[trigger] in_owner_block(blocks@, owner@, x),
                        forall|x: usize| x < n && block@.contains(x) ==> assigned@[x as int] && owner@[x as int] == b,
                        forall|x: usize| x < n && !assigned@[x as int] ==> forall|i: int| 0 <= i < blocks@.len() ==> !(#[trigger] blocks@[i])@.contains(x),
                        forall|i: int, x: usize| 0 <= i < blocks@.len() && #[trigger] blocks@[i]@.contains(x) ==> x < n && owner@[x as int] == i && !block@.contains(x),
                {
                    if !mark[p][q] {
                        proof {
                            assert(!marked(mark@, p, q));
                        }
                        let ghost blk0 = block@;
                        let ghost own0 = owner@;
                        let ghost asg0 = assigned@;
                        proof {
                            assert(self.equivalent(p, q));
                            assert(!asg0[q as int]);
                        }
                        block.push(q);
                        assigned.set(q, true);
                        owner.set(q, b);
                        proof {
                            broadcast use vstd::seq_lib::lemma_seq_contains_after_push;
                            assert forall|i: int, x: usize| 0 <= i < blocks@.len() && #[trigger] blocks@[i]@.contains(x) implies x < n && owner@[x as int] == i && !block@.contains(x) by {
                                assert(x < n && own0[x as int] == i && !blk0.contains(x));
                                if x == q {
                                    assert(!blocks@[i]@.contains(q));
                                }
                            }
                            assert forall|x: usize| x < n && assigned@[x as int] && !block@.contains(x) implies #[trigger] in_owner_block(blocks@, owner@, x) by {
                                assert(x != q);
                                assert(asg0[x as int]);
                                assert(in_owner_block(blocks@, own0, x));
                            }
                        }
                    } else {
                        proof {
                            assert(marked(mark@, p, q));
                        }
                    }
                }
                proof {
                    lemma_equivalent_refl(self, p);
                    assert(block@.contains(p));
                    assert(block@[0] == p) by {
                        let k = choose|k: int| 0 <= k < block@.len() && block@[k] == p;
                        if k > 0 {
                            assert(block@[0] < block@[k]);
                        }
                    }
                    assert forall|x: usize| block@.to_set().contains(x) <==> self.class_of(p).contains(x) by {
                        if self.class_of(p).contains(x) {
                            if x < p {
                                assert(!assigned@[x as int]);
                            }
                            assert(block@.contains(x));
                        }
                        if block@.to_set().contains(x) {
                            assert(block@.contains(x));
                            let k = choose|k: int| 0 <= k < block@.len() && block@[k] == x;
                            assert(p <= x);
                        }
                    }
                    assert(block@.to_set() =~= self.class_of(p));
                    assert(ascending(block@)) by {
                        assert forall|k: int, m: int| 0 <= k < m < block@.len() implies block@[k] <= block@[m] by {}
                    }
                    assert(block@.no_duplicates()) by {
                        assert forall|k: int, m: int| 0 <= k < block@.len() && 0 <= m < block@.len() && k != m implies block@[k] != block@[m] by {
                            if k < m { assert(block@[k] < block@[m]); } else { assert(block@[m] < block@[k]); }
                        }
                    }
                }
                let ghost bl0 = blocks@;
                let ghost blk = block@;
                blocks.push(block);
                proof {
                    assert forall|i: int| 0 <= i < blocks@.len() implies (#[trigger] blocks@[i])@[0] < p + 1 by {
                        if i < b { assert(blocks@[i] == bl0[i]); }
                    }
                    assert forall|q: usize| q < n && assigned@[q as int] implies #[trigger] in_owner_block(blocks@, owner@, q) by {
                        if blk.contains(q) {
                            assert(owner@[q as int] == b);
                            assert(blocks@[b as int]@ == blk);
                        } else {
                            assert(in_owner_block(bl0, owner@, q));
                            assert(blocks@[owner@[q as int] as int] == bl0[owner@[q as int] as int]);
                        }
                    }
                }
            }
        }
        (blocks, owner)
    }

    /// The minimal automaton: the states that no word tells apart merged into one, the
    /// blocks ordered by their least state; the second part lists the blocks.
    pub fn minimize_with_process(&self) -> (res: (DFA, Vec<Vec<usize>>))
        requires
            self.wf(),
        ensures
            forall|i: int| 0 <= i < res.1@.len() ==> good_state(#[trigger] res.1@[i]@, self.edges@.len()),
            forall|i: int| 0 <= i < res.1@.len() ==> (#[trigger] res.1@[i])@.len() > 0,
            forall|i: int, p: usize| 0 <= i < res.1@.len() && #[trigger] res.1@[i]@.contains(p) ==> res.1@[i]@.to_set() == self.class_of(p),
            forall|p: usize| p < self.edges@.len() ==> 0 <= #[trigger] block_of(res.1@, p) < res.1@.len() && res.1@[block_of(res.1@, p)]@.contains(p),
            forall|i: int, j: int| 0 <= i < j < res.1@.len() ==> res.1@[i]@[0] < res.1@[j]@[0],
            res.0.edges@.len() == res.1@.len(),
            res.0.letters@ == self.letters@,
            self.start < self.edges@.len() ==> res.0.start == block_of(res.1@, self.start),
            self.start >= self.edges@.len() ==> res.0.start == 0,
            ascending(res.0.end@),
            res.0.end@.no_duplicates(),
            res.0.end@.to_set() == Set::new(|i: usize| i < res.1@.len() && self.touches_final(res.1@[i as int]@.to_set())),
            forall|i: int| 0 <= i < res.1@.len() ==> #[trigger] res.0.row(i) == self.min_row(res.1@, res.1@[i]@[0], seq_view(self.letters@)),
            crate::automaton::laws::minimized(self, &res.0, res.1@),
    {
        let n = self.edges.len();
        let mark = self.distinguish_table();
        let (blocks, owner) = self.equivalence_blocks(&mark);
        let ghost ls = seq_view(self.letters@);
        let mut end: Vec<usize> = Vec::new();
        let mut start: usize = 0;
        for i in 0..blocks.len()
            invariant
                n == self.edges@.len(),
                partition_ok(self, blocks@, owner@),
                forall|k: int| 0 <= k < end@.len() ==> #[trigger] end@[k] < i,
                ascending(end@),
                end@.no_duplicates(),
                forall|k: usize| k < i ==> (end@.contains(k) <==> self.touches_final(blocks@[k as int]@.to_set())),
                self.start < n && owner@[self.start as int] < i ==> start == owner@[self.start as int],
                !(self.start < n && owner@[self.start as int] < i) ==> start == 0,
        {
            let ghost e0 = end@;
            if self.holds_final(&blocks[i]) {
                end.push(i);
                proof {
                    broadcast use vstd::seq_lib::lemma_seq_contains_after_push;
                    crate::utils::lemma_push_no_dup(e0, i);
                }
            }
            proof {
                broadcast use vstd::seq_lib::lemma_seq_contains_after_push;
            }
            if self.start < n && owner[self.start] == i {
                start = i;
            }
        }
        let mut edges: Vec<Vec<(Letter, usize)>> = Vec::new();
        for i in 0..blocks.len()
            invariant
                n == self.edges@.len(),
                self.wf(),
                ls == seq_view(self.letters@),
                partition_ok(self, blocks@, owner@),
                edges@.len() == i,
                forall|k: int| 0 <= k < i ==> #[trigger] edges_view(edges@[k]@) == self.min_row(blocks@, blocks@[k]@[0], ls),
        {
            let rep = blocks[i][0];
            let mut row: Vec<(Letter, usize)> = Vec::new();
            assert(ls.take(0) =~= Seq::<SpecLetter>::empty());
            for t in 0..self.letters.len()
                invariant
                    n == self.edges@.len(),
                    self.wf(),
                    ls == seq_view(self.letters@),
                    partition_ok(self, blocks@, owner@),
                    rep < n,
                    edges_view(row@) == self.min_row(blocks@, rep, ls.take(t as int)),
            {
                let to = self.step_single(rep, self.letters[t].clone());
                proof {
                    assert(ls.take(t + 1).drop_last() =~= ls.take(t as int));
                    assert(ls.take(t + 1).last() == ls[t as int]);
                    assert(ls[t as int] == self.letters@[t as int]@);
                    lemma_target_in_range(self, rep, ls[t as int]);
                }
                match to {
                    Some(x) => {
                        proof {
                            assert(in_owner_block(blocks@, owner@, x));
                            let c = block_of(blocks@, x);
                            assert(blocks@[c]@.contains(x));
                        }
                        row.push((self.letters[t].clone(), owner[x]));
                        proof {
                            assert(edges_view(row@) =~= self.min_row(blocks@, rep, ls.take(t + 1)));
                        }
                    },
                    None => {},
                }
            }
            proof {
                assert(ls.take(ls.len() as int) =~= ls);
            }
            edges.push(row);
        }
        proof {
            assert(end@.to_set() =~= Set::new(|i: usize| i < blocks@.len() && self.touches_final(blocks@[i as int]@.to_set()))) by {
                assert forall|k: usize| end@.to_set().contains(k) implies k < blocks@.len() by {
                    let m = choose|m: int| 0 <= m < end@.len() && end@[m] == k;
                }
            }
            assert forall|i: int, p: usize| 0 <= i < blocks@.len() && #[trigger] blocks@[i]@.contains(p) implies blocks@[i]@.to_set() == self.class_of(p) by {
                let rep = blocks@[i]@[0];
                assert(blocks@[i]@.to_set().contains(p));
                assert(self.equivalent(rep, p));
                assert forall|q: usize| self.class_of(p).contains(q) <==> self.class_of(rep).contains(q) by {
                    lemma_equivalent_sym(self, rep, p);
                    if self.class_of(p).contains(q) {
                        lemma_equivalent_trans(self, rep, p, q);
                    }
                    if self.class_of(rep).contains(q) {
                        lemma_equivalent_trans(self, p, rep, q);
                    }
                }
                assert(self.class_of(p) =~= self.class_of(rep));
            }
            assert forall|p: usize| p < n implies 0 <= #[trigger] block_of(blocks@, p) < blocks@.len() && blocks@[block_of(blocks@, p)]@.contains(p) by {
                assert(in_owner_block(blocks@, owner@, p));
            }
            if self.start < n {
                let c = block_of(blocks@, self.start);
                assert(in_owner_block(blocks@, owner@, self.start));
                assert(blocks@[c]@.contains(self.start));
            }
        }
        let dfa = DFA { start, end, letters: clone_letters(&self.letters), edges };
        (dfa, blocks)
    }
}
} // verus!

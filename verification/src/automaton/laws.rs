use vstd::prelude::*;
use crate::grammar::letter::{SpecLetter, seq_view};
use crate::utils::{closed_under, least_closed, lemma_least_closed_min, lemma_least_closed_init, lemma_least_closed_step};
use super::dfa::{DFA, first_target};
use super::nfa::NFA;
use super::subset::{SubsetRow, row_sets, state_index};
use super::minimize::{block_of, lemma_equivalent_sym, lemma_equivalent_trans, lemma_target_in_range};

verus! {

/// The state that `d` reaches from `s` on the word `w`, where its transitions go that far.
pub open spec fn dfa_run(d: &DFA, s: usize, w: Seq<SpecLetter>) -> Option<usize>
    decreases w.len(),
{
    if w.len() == 0 {
        Some(s)
    } else if s >= d.edges@.len() {
        None
    } else {
        match first_target(d.row(s as int), w[0]) {
            None => None,
            Some(t) => dfa_run(d, t, w.drop_first()),
        }
    }
}

/// `d` accepts `w`: reading it from the start state ends in a final state.
pub open spec fn dfa_accepts(d: &DFA, w: Seq<SpecLetter>) -> bool {
    match dfa_run(d, d.start, w) {
        Some(s) => d.end@.contains(s),
        None => false,
    }
}

/// The states that `n` may be in after reading `w` from the states `seed`.
pub open spec fn nfa_reach(n: &NFA, seed: Set<usize>, w: Seq<SpecLetter>) -> Set<usize>
    decreases w.len(),
{
    if w.len() == 0 {
        seed
    } else {
        nfa_reach(n, n.spec_step(seed, w[0]), w.drop_first())
    }
}

/// `n` accepts `w`: some way of reading it from the closure of the start state ends in a
/// final state.
pub open spec fn nfa_accepts(n: &NFA, w: Seq<SpecLetter>) -> bool {
    n.touches_end(nfa_reach(n, n.eps_closure(set![n.start]), w))
}

/// `w` is a word over the letters `ls`.
pub open spec fn word_over(ls: Seq<SpecLetter>, w: Seq<SpecLetter>) -> bool {
    forall|i: int| 0 <= i < w.len() ==> ls.contains(#[trigger] w[i])
}

/// The first transition on `x` of a row grown at the end.
proof fn lemma_first_target_push(row: Seq<(SpecLetter, usize)>, e: (SpecLetter, usize), x: SpecLetter)
    ensures
        first_target(row.push(e), x) == match first_target(row, x) {
            Some(v) => Some(v),
            None => if e.0 == x { Some(e.1) } else { None },
        },
    decreases row.len(),
{
    assert(row.push(e)[0] == if row.len() > 0 { row[0] } else { e });
    if row.len() > 0 {
        assert(row.push(e).drop_first() =~= row.drop_first().push(e));
        lemma_first_target_push(row.drop_first(), e, x);
    } else {
        assert(row.push(e).drop_first() =~= Seq::<(SpecLetter, usize)>::empty());
        assert(first_target(Seq::<(SpecLetter, usize)>::empty(), x) is None);
        assert(first_target(row, x) is None);
    }
}

/// Nothing is reached from no state.
proof fn lemma_step_empty(n: &NFA, x: SpecLetter)
    ensures
        n.spec_step(Set::<usize>::empty(), x) == Set::<usize>::empty(),
{
    assert(n.moves(Set::<usize>::empty(), x) =~= Set::<usize>::empty());
    let e = n.eps_edge();
    let z = Set::<usize>::empty();
    assert(closed_under(e, z));
    lemma_least_closed_min(z, e, z);
    assert(n.eps_closure(z) =~= z);
}

proof fn lemma_reach_empty(n: &NFA, w: Seq<SpecLetter>)
    ensures
        nfa_reach(n, Set::<usize>::empty(), w) == Set::<usize>::empty(),
    decreases w.len(),
{
    if w.len() > 0 {
        lemma_step_empty(n, w[0]);
        lemma_reach_empty(n, w.drop_first());
    }
}

/// The transition of a subset state on a letter of the alphabet leads to its step.
proof fn lemma_subset_target(n: &NFA, sets: Seq<Set<usize>>, p: Set<usize>, ls: Seq<SpecLetter>, x: SpecLetter)
    requires
        ls.contains(x),
    ensures
        first_target(n.subset_row(sets, p, ls), x) == if n.spec_step(p, x) == Set::<usize>::empty() {
            None::<usize>
        } else {
            Some(state_index(sets, n.spec_step(p, x)) as usize)
        },
    decreases ls.len(),
{
    let prev = n.subset_row(sets, p, ls.drop_last());
    let t = n.spec_step(p, ls.last());
    if ls.drop_last().contains(x) {
        lemma_subset_target(n, sets, p, ls.drop_last(), x);
    } else {
        assert(ls.last() == x) by {
            let i = choose|i: int| 0 <= i < ls.len() && ls[i] == x;
            if i < ls.len() - 1 {
                assert(ls.drop_last()[i] == x);
            }
        }
        lemma_subset_row_misses(n, sets, p, ls.drop_last(), x);
    }
    if t != Set::<usize>::empty() {
        lemma_first_target_push(prev, (ls.last(), state_index(sets, t) as usize), x);
    }
}

/// A row over letters without `x` has no transition on `x`.
proof fn lemma_subset_row_misses(n: &NFA, sets: Seq<Set<usize>>, p: Set<usize>, ls: Seq<SpecLetter>, x: SpecLetter)
    requires
        !ls.contains(x),
    ensures
        first_target(n.subset_row(sets, p, ls), x) is None,
    decreases ls.len(),
{
    if ls.len() > 0 {
        assert(!ls.drop_last().contains(x)) by {
            if ls.drop_last().contains(x) {
                let i = choose|i: int| 0 <= i < ls.drop_last().len() && ls.drop_last()[i] == x;
                assert(ls[i] == x);
            }
        }
        assert(ls.last() != x) by {
            assert(ls[ls.len() - 1] == ls.last());
        }
        lemma_subset_row_misses(n, sets, p, ls.drop_last(), x);
        let t = n.spec_step(p, ls.last());
        if t != Set::<usize>::empty() {
            lemma_first_target_push(n.subset_row(sets, p, ls.drop_last()), (ls.last(), state_index(sets, t) as usize), x);
        }
    }
}

/// Reading a word from a subset state follows the steps of the nondeterministic automaton.
proof fn lemma_subset_run(n: &NFA, d: &DFA, rows: Seq<SubsetRow>, j: usize, w: Seq<SpecLetter>)
    requires
        rows.len() == d.edges@.len(),
        n.subset_states(row_sets(rows)),
        forall|k: int| 0 <= k < rows.len() ==> #[trigger] d.row(k) == n.subset_row(row_sets(rows), row_sets(rows)[k], seq_view(n.letters@)),
        j < rows.len(),
        word_over(seq_view(n.letters@), w),
    ensures
        match dfa_run(d, j, w) {
            Some(k) => k < rows.len() && row_sets(rows)[k as int] == nfa_reach(n, row_sets(rows)[j as int], w),
            None => nfa_reach(n, row_sets(rows)[j as int], w) == Set::<usize>::empty(),
        },
    decreases w.len(),
{
    if w.len() > 0 {
        let sets = row_sets(rows);
        let ls = seq_view(n.letters@);
        let x = w[0];
        assert(ls.contains(x));
        lemma_subset_target(n, sets, sets[j as int], ls, x);
        assert(d.row(j as int) == n.subset_row(sets, sets[j as int], ls));
        let t = n.spec_step(sets[j as int], x);
        let rest = w.drop_first();
        assert(word_over(ls, rest)) by {
            assert forall|i: int| 0 <= i < rest.len() implies ls.contains(#[trigger] rest[i]) by {
                assert(rest[i] == w[i + 1]);
            }
        }
        if t == Set::<usize>::empty() {
            lemma_reach_empty(n, rest);
            assert(nfa_reach(n, sets[j as int], w) == nfa_reach(n, t, rest));
        } else {
            let t_ix = x;
            assert(n.steps_within(sets, sets[j as int], ls));
            let tt = choose|tt: int| 0 <= tt < ls.len() && ls[tt] == x;
            assert(n.spec_step(sets[j as int], ls[tt]) != Set::<usize>::empty());
            let k0 = choose|k0: int| 0 <= k0 < sets.len() && sets[k0] == #[trigger] n.spec_step(sets[j as int], ls[tt]);
            let k = state_index(sets, t);
            assert(0 <= k < sets.len() && sets[k] == t);
            assert(d.edges@.len() == d.edges.len());
            assert(first_target(d.row(j as int), x) == Some(k as usize));
            lemma_subset_run(n, d, rows, k as usize, rest);
            assert(nfa_reach(n, sets[j as int], w) == nfa_reach(n, t, rest));
        }
    }
}

/// The relation between a nondeterministic automaton and the automaton of its subset
/// construction with the rows of that construction, as `to_dfa_with_process` states it.
pub open spec fn determinized(n: &NFA, d: &DFA, rows: Seq<SubsetRow>) -> bool {
    &&& rows.len() == d.edges@.len()
    &&& n.subset_states(row_sets(rows))
    &&& d.start == 0
    &&& forall|k: int| 0 <= k < rows.len() ==> #[trigger] d.row(k) == n.subset_row(row_sets(rows), row_sets(rows)[k], seq_view(n.letters@))
    &&& d.end@.to_set() == Set::new(|k: usize| k < rows.len() && n.touches_end(row_sets(rows)[k as int]))
}

/// The automaton of the subset construction accepts exactly the words over the alphabet
/// that the nondeterministic automaton accepts.
pub proof fn law_subset_language(n: &NFA, d: &DFA, rows: Seq<SubsetRow>, w: Seq<SpecLetter>)
    requires
        determinized(n, d, rows),
        word_over(seq_view(n.letters@), w),
    ensures
        dfa_accepts(d, w) == nfa_accepts(n, w),
{
    let sets = row_sets(rows);
    lemma_subset_run(n, d, rows, 0, w);
    match dfa_run(d, 0, w) {
        Some(k) => {
            assert(d.end@.contains(k) == d.end@.to_set().contains(k));
        },
        None => {
            assert(!n.touches_end(Set::<usize>::empty()));
        },
    }
}

/// A merged row over letters without `x` has no transition on `x`.
proof fn lemma_min_row_misses(d: &DFA, blocks: Seq<Vec<usize>>, rep: usize, ls: Seq<SpecLetter>, x: SpecLetter)
    requires
        !ls.contains(x),
    ensures
        first_target(d.min_row(blocks, rep, ls), x) is None,
    decreases ls.len(),
{
    if ls.len() > 0 {
        assert(!ls.drop_last().contains(x)) by {
            if ls.drop_last().contains(x) {
                let i = choose|i: int| 0 <= i < ls.drop_last().len() && ls.drop_last()[i] == x;
                assert(ls[i] == x);
            }
        }
        assert(ls.last() != x) by {
            assert(ls[ls.len() - 1] == ls.last());
        }
        lemma_min_row_misses(d, blocks, rep, ls.drop_last(), x);
        if let Some(y) = d.target(rep, ls.last()) {
            lemma_first_target_push(d.min_row(blocks, rep, ls.drop_last()), (ls.last(), block_of(blocks, y) as usize), x);
        }
    }
}

/// The transition of a merged state on a letter of the alphabet: that of its
/// representative, to the block of its target.
proof fn lemma_min_target(d: &DFA, blocks: Seq<Vec<usize>>, rep: usize, ls: Seq<SpecLetter>, x: SpecLetter)
    requires
        ls.contains(x),
    ensures
        first_target(d.min_row(blocks, rep, ls), x) == match d.target(rep, x) {
            Some(y) => Some(block_of(blocks, y) as usize),
            None => None::<usize>,
        },
    decreases ls.len(),
{
    if ls.drop_last().contains(x) {
        lemma_min_target(d, blocks, rep, ls.drop_last(), x);
    } else {
        assert(ls.last() == x) by {
            let i = choose|i: int| 0 <= i < ls.len() && ls[i] == x;
            if i < ls.len() - 1 {
                assert(ls.drop_last()[i] == x);
            }
        }
        lemma_min_row_misses(d, blocks, rep, ls.drop_last(), x);
    }
    if let Some(y) = d.target(rep, ls.last()) {
        lemma_first_target_push(d.min_row(blocks, rep, ls.drop_last()), (ls.last(), block_of(blocks, y) as usize), x);
    }
}

/// States that no word tells apart are both final or neither.
proof fn lemma_equivalent_final(d: &DFA, p: usize, q: usize)
    requires
        d.equivalent(p, q),
        p < d.edges@.len(),
        q < d.edges@.len(),
    ensures
        d.is_final(p) == d.is_final(q),
{
    if d.is_final(p) != d.is_final(q) {
        assert(d.base_pairs().contains((p, q)));
        lemma_least_closed_init(d.base_pairs(), d.pair_back(), (p, q));
    }
}

/// States that no word tells apart move on the same letters of the alphabet, to states
/// that no word tells apart.
proof fn lemma_equivalent_moves(d: &DFA, p: usize, q: usize, t: int)
    requires
        d.equivalent(p, q),
        p < d.edges@.len(),
        q < d.edges@.len(),
        0 <= t < d.letters@.len(),
    ensures
        d.target(p, d.letters@[t]@).is_none() == d.target(q, d.letters@[t]@).is_none(),
        d.target(p, d.letters@[t]@) matches Some(p2) ==> d.target(q, d.letters@[t]@) matches Some(q2) && d.equivalent(p2, q2),
{
    let x = d.letters@[t]@;
    if d.target(p, x).is_none() != d.target(q, x).is_none() {
        assert(d.differ_now(p, q));
        assert(d.base_pairs().contains((p, q)));
        lemma_least_closed_init(d.base_pairs(), d.pair_back(), (p, q));
    }
    if let Some(p2) = d.target(p, x) {
        let q2 = d.target(q, x)->0;
        if !d.equivalent(p2, q2) {
            assert(d.pair_step((p2, q2), (p, q)));
            assert((d.pair_back())((p2, q2), (p, q)));
            lemma_least_closed_step(d.base_pairs(), d.pair_back(), (p2, q2), (p, q));
        }
    }
}

/// States that no word tells apart have the same class.
proof fn lemma_same_class(d: &DFA, p: usize, q: usize)
    requires
        d.wf(),
        d.equivalent(p, q),
        p < d.edges@.len(),
        q < d.edges@.len(),
    ensures
        d.class_of(p) == d.class_of(q),
{
    assert forall|r: usize| d.class_of(p).contains(r) <==> d.class_of(q).contains(r) by {
        lemma_equivalent_sym(d, p, q);
        if d.class_of(p).contains(r) {
            lemma_equivalent_trans(d, q, p, r);
        }
        if d.class_of(q).contains(r) {
            lemma_equivalent_trans(d, p, q, r);
        }
    }
    assert(d.class_of(p) =~= d.class_of(q));
}

/// The relation between an automaton and its minimal automaton, as `minimize_with_process` states it.
pub open spec fn minimized(d: &DFA, m: &DFA, blocks: Seq<Vec<usize>>) -> bool {
    &&& forall|i: int| 0 <= i < blocks.len() ==> (#[trigger] blocks[i])@.len() > 0
    &&& forall|i: int, p: usize| 0 <= i < blocks.len() && #[trigger] blocks[i]@.contains(p) ==> blocks[i]@.to_set() == d.class_of(p)
    &&& forall|p: usize| p < d.edges@.len() ==> 0 <= #[trigger] block_of(blocks, p) < blocks.len() && blocks[block_of(blocks, p)]@.contains(p)
    &&& m.edges@.len() == blocks.len()
    &&& m.letters@ == d.letters@
    &&& d.start < d.edges@.len() ==> m.start == block_of(blocks, d.start)
    &&& m.end@.to_set() == Set::new(|i: usize| i < blocks.len() && d.touches_final(blocks[i as int]@.to_set()))
    &&& forall|i: int| 0 <= i < blocks.len() ==> #[trigger] m.row(i) == d.min_row(blocks, blocks[i]@[0], seq_view(d.letters@))
}

/// Reading a word from the block of `p` follows `d` from `p`, block by block.
proof fn lemma_min_run(d: &DFA, m: &DFA, blocks: Seq<Vec<usize>>, p: usize, k: usize, w: Seq<SpecLetter>)
    requires
        d.wf(),
        minimized(d, m, blocks),
        p < d.edges@.len(),
        k < blocks.len(),
        blocks[k as int]@.to_set() == d.class_of(p),
        word_over(seq_view(d.letters@), w),
    ensures
        dfa_run(d, p, w) is None == dfa_run(m, k, w) is None,
        dfa_run(d, p, w) matches Some(q) ==> q < d.edges@.len() && dfa_run(m, k, w)->0 < blocks.len()
            && blocks[dfa_run(m, k, w)->0 as int]@.to_set() == d.class_of(q),
    decreases w.len(),
{
    if w.len() > 0 {
        let ls = seq_view(d.letters@);
        let x = w[0];
        let rest = w.drop_first();
        assert(word_over(ls, rest)) by {
            assert forall|i: int| 0 <= i < rest.len() implies ls.contains(#[trigger] rest[i]) by {
                assert(rest[i] == w[i + 1]);
            }
        }
        assert(ls.contains(x));
        let t = choose|t: int| 0 <= t < ls.len() && ls[t] == x;
        assert(d.letters@[t]@ == x);
        let rep = blocks[k as int]@[0];
        assert(blocks[k as int]@.contains(rep));
        assert(d.class_of(p).contains(rep));
        assert(m.row(k as int) == d.min_row(blocks, rep, ls));
        lemma_min_target(d, blocks, rep, ls, x);
        lemma_equivalent_moves(d, p, rep, t);
        assert(m.edges@.len() == m.edges.len());
        if let Some(p2) = d.target(p, x) {
            let r2 = d.target(rep, x)->0;
            lemma_target_in_range(d, p, x);
            lemma_target_in_range(d, rep, x);
            let k2 = block_of(blocks, r2);
            assert(blocks[k2]@.contains(r2));
            assert(blocks[k2]@.to_set() == d.class_of(r2));
            lemma_same_class(d, p2, r2);
            lemma_min_run(d, m, blocks, p2, k2 as usize, rest);
        }
    }
}

/// The minimal automaton accepts exactly the words over the alphabet that the automaton
/// accepts.
pub proof fn law_minimize_language(d: &DFA, m: &DFA, blocks: Seq<Vec<usize>>, w: Seq<SpecLetter>)
    requires
        d.wf(),
        d.start < d.edges@.len(),
        minimized(d, m, blocks),
        word_over(seq_view(d.letters@), w),
    ensures
        dfa_accepts(m, w) == dfa_accepts(d, w),
{
    let k = block_of(blocks, d.start);
    assert(blocks[k]@.contains(d.start));
    assert(blocks[k]@.to_set() == d.class_of(d.start));
    assert(m.edges@.len() == m.edges.len());
    lemma_min_run(d, m, blocks, d.start, k as usize, w);
    if let Some(q) = dfa_run(d, d.start, w) {
        let k2 = dfa_run(m, m.start, w)->0;
        crate::automaton::minimize::lemma_equivalent_refl(d, q);
        assert(d.class_of(q).contains(q));
        if d.end@.contains(q) {
            assert(blocks[k2 as int]@.to_set().contains(q));
            assert(m.end@.to_set().contains(k2));
        }
        if m.end@.contains(k2) {
            assert(m.end@.to_set().contains(k2));
            let y = choose|y: usize| blocks[k2 as int]@.to_set().contains(y) && #[trigger] d.end@.contains(y);
            assert(d.class_of(q).contains(y));
            lemma_equivalent_final(d, q, y);
        }
    }
}

} // verus!

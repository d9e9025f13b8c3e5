use vstd::prelude::*;
use crate::grammar::letter::{Letter, SpecLetter};

verus! {

/// The abstract value of a row of transitions.
pub open spec fn edges_view(row: Seq<(Letter, usize)>) -> Seq<(SpecLetter, usize)> {
    row.map_values(|e: (Letter, usize)| (e.0@, e.1))
}

/// The target of the first transition of `row` on `x`.
pub open spec fn first_target(row: Seq<(SpecLetter, usize)>, x: SpecLetter) -> Option<usize>
    decreases row.len(),
{
    if row.len() == 0 {
        None
    } else if row[0].0 == x {
        Some(row[0].1)
    } else {
        first_target(row.drop_first(), x)
    }
}

/// A deterministic finite automaton: start state, final states, alphabet, and for each
/// state its transitions.
#[derive(Debug)]
pub struct DFA {
    pub start: usize,
    pub end: Vec<usize>,
    pub letters: Vec<Letter>,
    pub edges: Vec<Vec<(Letter, usize)>>,
}

impl DFA {
    /// The transitions of state `s`.
    pub open spec fn row(&self, s: int) -> Seq<(SpecLetter, usize)> {
        edges_view(self.edges@[s]@)
    }

    /// Every transition leads to a state of the automaton.
    pub open spec fn wf(&self) -> bool {
        forall|u: int, i: int| 0 <= u < self.edges@.len() && 0 <= i < self.edges@[u]@.len() ==> (#[trigger] self.edges@[u]@[i]).1 < self.edges@.len()
    }

    /// The state reached from `state` on `le`, if the automaton has a transition.
    pub fn step_single(&self, state: usize, le: Letter) -> (res: Option<usize>)
        requires
            state < self.edges@.len(),
        ensures
            res == first_target(self.row(state as int), le@),
    {
        let row = &self.edges[state];
        let ghost v = edges_view(row@);
        let mut i: usize = 0;
        assert(v.skip(0) =~= v);
        while i < row.len()
            invariant
                v == edges_view(row@),
                v == self.row(state as int),
                i <= row@.len(),
                first_target(v, le@) == first_target(v.skip(i as int), le@),
            decreases row@.len() - i,
        {
            assert(v.skip(i as int)[0] == v[i as int]);
            assert(v[i as int].0 == row@[i as int].0@);
            if row[i].0 == le {
                return Some(row[i].1);
            }
            assert(v.skip(i as int).drop_first() =~= v.skip(i + 1));
            i = i + 1;
        }
        None
    }
}

} // verus!

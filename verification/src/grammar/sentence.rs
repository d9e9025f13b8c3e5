use vstd::prelude::*;
use super::letter::{Letter, SpecLetter, seq_view};

verus! {

/// A string of grammar symbols.
pub struct Sentence {
    pub sentence: Vec<Letter>,
}

impl View for Sentence {
    type V = Seq<SpecLetter>;

    open spec fn view(&self) -> Seq<SpecLetter> {
        seq_view(self.sentence@)
    }
}

impl Sentence {
    pub fn from_slice(data: &[Letter]) -> (res: Sentence)
        ensures
            res@ == seq_view(data@),
    {
        let mut v: Vec<Letter> = Vec::new();
        for i in 0..data.len()
            invariant
                v@.len() == i,
                i <= data@.len(),
                forall|j: int| 0 <= j < i ==> v@[j]@ == #[trigger] data@[j]@,
        {
            v.push(data[i].clone());
        }
        let res = Sentence { sentence: v };
        assert(res@ =~= seq_view(data@));
        res
    }

    pub fn push(&mut self, letter: Letter)
        ensures
            final(self)@ == old(self)@.push(letter@),
    {
        self.sentence.push(letter);
        assert(self@ =~= old(self)@.push(letter@));
    }
}

} // verus!

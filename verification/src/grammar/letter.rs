use vstd::prelude::*;
use vstd::string::*;

verus! {

/// The abstract value of a grammar symbol.
pub enum SpecLetter {
    NonTerminal(Seq<char>),
    Terminal(Seq<char>),
    Empty,
    EndSign,
}

/// A grammar symbol: a non terminal, a terminal, the empty word or the end marker `#`.
#[derive(Hash, Eq, PartialOrd, Ord, Debug)]
pub enum Letter {
    NonTerminal(String),
    Terminal(String),
    Empty,
    EndSign,
}

impl View for Letter {
    type V = SpecLetter;

    open spec fn view(&self) -> SpecLetter {
        match self {
            Letter::NonTerminal(s) => SpecLetter::NonTerminal(s@),
            Letter::Terminal(s) => SpecLetter::Terminal(s@),
            Letter::Empty => SpecLetter::Empty,
            Letter::EndSign => SpecLetter::EndSign,
        }
    }
}

impl Clone for Letter {
    fn clone(&self) -> (res: Self)
        ensures
            res == *self,
    {
        match self {
            Letter::NonTerminal(s) => Letter::NonTerminal(s.clone()),
            Letter::Terminal(s) => Letter::Terminal(s.clone()),
            Letter::Empty => Letter::Empty,
            Letter::EndSign => Letter::EndSign,
        }
    }
}

impl PartialEq for Letter {
    fn eq(&self, other: &Self) -> (res: bool) {
        match (self, other) {
            (Letter::NonTerminal(a), Letter::NonTerminal(b)) => a.eq(b),
            (Letter::Terminal(a), Letter::Terminal(b)) => a.eq(b),
            (Letter::Empty, Letter::Empty) => true,
            (Letter::EndSign, Letter::EndSign) => true,
            _ => false,
        }
    }
}

impl vstd::std_specs::cmp::PartialEqSpecImpl for Letter {
    open spec fn obeys_eq_spec() -> bool {
        true
    }

    open spec fn eq_spec(&self, other: &Letter) -> bool {
        self@ == other@
    }
}

/// The text of a symbol: its name, `.` for the empty word and `#` for the end marker.
pub open spec fn spec_letter_str(l: SpecLetter) -> Seq<char> {
    match l {
        SpecLetter::NonTerminal(s) => s,
        SpecLetter::Terminal(s) => s,
        SpecLetter::Empty => seq!['.'],
        SpecLetter::EndSign => seq!['#'],
    }
}

/// How a symbol is printed: a non terminal in braces, a terminal by its name,
/// `.` for the empty word and `#` for the end marker.
pub open spec fn spec_letter_display(l: SpecLetter) -> Seq<char> {
    match l {
        SpecLetter::NonTerminal(s) => seq!['{'] + s + seq!['}'],
        SpecLetter::Terminal(s) => s,
        SpecLetter::Empty => seq!['.'],
        SpecLetter::EndSign => seq!['#'],
    }
}

impl Letter {
    pub fn get_str(&self) -> (res: &str)
        ensures
            res@ == spec_letter_str(self@),
    {
        match self {
            Letter::NonTerminal(x) => x.as_str(),
            Letter::Terminal(x) => x.as_str(),
            Letter::Empty => {
                proof {
                    reveal_strlit(".");
                }
                "."
            },
            Letter::EndSign => {
                proof {
                    reveal_strlit("#");
                }
                "#"
            },
        }
    }

    pub fn is_terminal(&self) -> (res: bool)
        ensures
            res == (self@ is Terminal),
    {
        if let Letter::Terminal(_) = self {
            return true;
        }
        false
    }

    pub fn is_empty(&self) -> (res: bool)
        ensures
            res == (self@ is Empty),
    {
        if let Letter::Empty = self {
            return true;
        }
        false
    }

    pub fn is_non_terminal(&self) -> (res: bool)
        ensures
            res == (self@ is NonTerminal),
    {
        if let Letter::NonTerminal(_) = self {
            return true;
        }
        false
    }

    pub fn is_end_sign(&self) -> (res: bool)
        ensures
            res == (self@ is EndSign),
    {
        if let Letter::EndSign = self {
            return true;
        }
        false
    }

    /// The printed form of the symbol.
    pub fn to_string(&self) -> (res: String)
        ensures
            res@ == spec_letter_display(self@),
    {
        match self {
            Letter::NonTerminal(x) => {
                proof {
                    reveal_strlit("{");
                    reveal_strlit("}");
                }
                let mut s = String::from_str("{");
                s.append(x.as_str());
                s.append("}");
                s
            },
            Letter::Terminal(x) => x.clone(),
            Letter::Empty => {
                proof {
                    reveal_strlit(".");
                }
                String::from_str(".")
            },
            Letter::EndSign => {
                proof {
                    reveal_strlit("#");
                }
                String::from_str("#")
            },
        }
    }
}


/// The symbols of a vector of letters.
pub open spec fn seq_view(s: Seq<Letter>) -> Seq<SpecLetter> {
    s.map_values(|l: Letter| l@)
}

/// Whether `l` occurs in `set`.
pub fn contains(set: &Vec<Letter>, letter: &Letter) -> (res: bool)
    ensures
        res == seq_view(set@).contains(letter@),
{
    for i in 0..set.len()
        invariant
            forall|j: int| 0 <= j < i ==> set@[j]@ != letter@,
    {
        if set[i] == *letter {
            assert(seq_view(set@)[i as int] == letter@);
            return true;
        }
    }
    assert(!seq_view(set@).contains(letter@)) by {
        if seq_view(set@).contains(letter@) {
            let j = choose|j: int| 0 <= j < seq_view(set@).len() && seq_view(set@)[j] == letter@;
            assert(set@[j]@ == letter@);
        }
    }
    false
}

/// The position of `letter` in `set`, if it occurs there.
pub fn index_of(set: &Vec<Letter>, letter: &Letter) -> (res: Option<usize>)
    ensures
        res matches Some(i) ==> i < set@.len() && set@[i as int]@ == letter@,
        res is None <==> !seq_view(set@).contains(letter@),
        res matches Some(i) ==> forall|j: int| 0 <= j < i ==> set@[j]@ != letter@,
{
    for i in 0..set.len()
        invariant
            forall|j: int| 0 <= j < i ==> set@[j]@ != letter@,
    {
        if set[i] == *letter {
            assert(seq_view(set@)[i as int] == letter@);
            return Some(i);
        }
    }
    assert(!seq_view(set@).contains(letter@)) by {
        if seq_view(set@).contains(letter@) {
            let j = choose|j: int| 0 <= j < seq_view(set@).len() && seq_view(set@)[j] == letter@;
            assert(set@[j]@ == letter@);
        }
    }
    None
}

/// `slice::sort` on letters, in the order that `Ord` gives them: the same letters,
/// rearranged. The order itself is not stated.
#[verifier::external_body]
pub(crate) fn sort_letters(v: &mut Vec<Letter>)
    ensures
        final(v)@.to_multiset() == old(v)@.to_multiset(),
{
    v.sort()
}

/// A copy of a vector of letters.
pub fn clone_letters(v: &Vec<Letter>) -> (res: Vec<Letter>)
    ensures
        res@ == v@,
        seq_view(res@) == seq_view(v@),
{
    let res = v.clone();
    assert(res@ =~= v@);
    res
}


pub proof fn lemma_seq_view_push(s: Seq<Letter>, l: Letter)
    ensures
        seq_view(s.push(l)) == seq_view(s).push(l@),
{
    assert(seq_view(s.push(l)) =~= seq_view(s).push(l@));
}

} // verus!

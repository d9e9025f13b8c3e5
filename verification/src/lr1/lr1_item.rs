use vstd::prelude::*;
use vstd::string::*;
use crate::grammar::order::{strict_total, letter_lt, letters_lt, letter_order, letters_order, lemma_letter_strict_total,
    lemma_letters_strict_total, compare_letters, compare_letter_seqs};
use crate::grammar::letter::{Letter, SpecLetter, seq_view, clone_letters, lemma_seq_view_push, spec_letter_str, spec_letter_display};
use crate::grammar::rule::{Rule, letters_eq, letters_display, letters_to_string};
use crate::grammar::sentence::Sentence;
use crate::lr0::lr0_item::{item_rule, concat_letters};

verus! {

/// The abstract value of an LR(1) item `left -> x : y, expected`.
pub struct SpecItem1 {
    pub left: SpecLetter,
    pub x: Seq<SpecLetter>,
    pub y: Seq<SpecLetter>,
    pub expected: SpecLetter,
}

/// An LR(1) item: an LR(0) item with the symbol expected after the production.
#[derive(Hash, Eq, PartialOrd, Ord, Debug)]
pub struct LR1Item {
    pub left: Letter,
    pub x: Vec<Letter>,
    pub y: Vec<Letter>,
    pub expected: Letter,
}

impl View for LR1Item {
    type V = SpecItem1;

    open spec fn view(&self) -> SpecItem1 {
        SpecItem1 { left: self.left@, x: seq_view(self.x@), y: seq_view(self.y@), expected: self.expected@ }
    }
}

impl Clone for LR1Item {
    fn clone(&self) -> (res: Self)
        ensures
            res@ == self@,
    {
        LR1Item { left: self.left.clone(), x: clone_letters(&self.x), y: clone_letters(&self.y), expected: self.expected.clone() }
    }
}

impl PartialEq for LR1Item {
    fn eq(&self, other: &Self) -> (res: bool) {
        self.left == other.left && letters_eq(&self.x, &other.x) && letters_eq(&self.y, &other.y) && self.expected == other.expected
    }
}

impl vstd::std_specs::cmp::PartialEqSpecImpl for LR1Item {
    open spec fn obeys_eq_spec() -> bool {
        true
    }

    open spec fn eq_spec(&self, other: &LR1Item) -> bool {
        self@ == other@
    }
}

/// The printed form of an item: `left -> x:y, expected`.
pub open spec fn spec_item1_display(it: SpecItem1) -> Seq<char> {
    spec_letter_str(it.left) + seq![' ', '-', '>', ' '] + letters_display(it.x) + seq![':']
        + letters_display(it.y) + seq![',', ' '] + spec_letter_display(it.expected)
}

/// The item with the dot moved over the first symbol after it.
pub open spec fn spec_shift1(it: SpecItem1) -> SpecItem1 {
    SpecItem1 { left: it.left, x: it.x.push(it.y[0]), y: it.y.drop_first(), expected: it.expected }
}

/// Two sequences agree on their common length.
pub open spec fn agree_on_common(a: Seq<SpecLetter>, b: Seq<SpecLetter>) -> bool {
    forall|i: int| 0 <= i < a.len() && i < b.len() ==> a[i] == b[i]
}

/// Whether two items have the same left side and their parts before and after the
/// dot agree as far as both go.
pub open spec fn spec_lr0_equal(a: SpecItem1, b: SpecItem1) -> bool {
    a.left == b.left && agree_on_common(a.x, b.x) && agree_on_common(a.y, b.y)
}

/// Whether two lists of symbols agree on their common length.
fn agree_letters(a: &Vec<Letter>, b: &Vec<Letter>) -> (res: bool)
    ensures
        res == agree_on_common(seq_view(a@), seq_view(b@)),
{
    let n = if a.len() < b.len() {
        a.len()
    } else {
        b.len()
    };
    for i in 0..n
        invariant
            n <= a@.len(),
            n <= b@.len(),
            n == a@.len() || n == b@.len(),
            forall|j: int| 0 <= j < i ==> seq_view(a@)[j] == seq_view(b@)[j],
    {
        if a[i] != b[i] {
            assert(seq_view(a@)[i as int] != seq_view(b@)[i as int]);
            return false;
        }
    }
    true
}

impl LR1Item {
    pub fn from(left: Letter, x: Vec<Letter>, y: Vec<Letter>, expected: Letter) -> (res: LR1Item)
        ensures
            res@ == (SpecItem1 { left: left@, x: seq_view(x@), y: seq_view(y@), expected: expected@ }),
    {
        LR1Item { left, x, y, expected }
    }

    /// The item `left -> : y, #`.
    pub fn new_initial(left: Letter, y: Vec<Letter>) -> (res: LR1Item)
        ensures
            res@ == (SpecItem1 { left: left@, x: seq![], y: seq_view(y@), expected: SpecLetter::EndSign }),
    {
        let res = LR1Item { left, x: Vec::new(), y, expected: Letter::EndSign };
        assert(res@.x =~= seq![]);
        res
    }

    /// Whether the items have the same left side and agree before and after the dot as
    /// far as both go.
    pub fn is_lr0_equal(&self, other: &Self) -> (res: bool)
        ensures
            res == spec_lr0_equal(self@, other@),
    {
        if self.left != other.left {
            return false;
        }
        agree_letters(&self.x, &other.x) && agree_letters(&self.y, &other.y)
    }

    /// The production of this item.
    pub fn rule(&self) -> (res: Rule)
        ensures
            res@ == item_rule(self@.left, self@.x, self@.y),
    {
        let mut temp = concat_letters(&self.x, &self.y);
        if temp.len() == 0 {
            temp.push(Letter::Empty);
            assert(seq_view(temp@) =~= seq![SpecLetter::Empty]);
            assert(self@.x + self@.y =~= Seq::<SpecLetter>::empty());
        }
        Rule { left: self.left.clone(), right: temp }
    }

    /// The symbols after the first one behind the dot.
    pub fn skip1_right(&self) -> (res: Sentence)
        requires
            self@.y.len() >= 1,
        ensures
            res@ == self@.y.skip(1),
    {
        let mut v: Vec<Letter> = Vec::new();
        for i in 1..self.y.len()
            invariant
                1 <= i <= self.y@.len(),
                seq_view(v@) == seq_view(self.y@).subrange(1, i as int),
        {
            let ghost old = v@;
            let c = self.y[i].clone();
            v.push(c);
            proof {
                lemma_seq_view_push(old, c);
            }
            assert(seq_view(v@) =~= seq_view(self.y@).subrange(1, i + 1));
        }
        assert(seq_view(self.y@).subrange(1, self.y@.len() as int) =~= self@.y.skip(1));
        Sentence { sentence: v }
    }

    /// The item with the dot moved over the first symbol after it.
    pub fn shift_right(&self) -> (res: LR1Item)
        requires
            self@.y.len() >= 1,
        ensures
            res@ == spec_shift1(self@),
    {
        let mut x = clone_letters(&self.x);
        let ghost oldx = x@;
        let c0 = self.y[0].clone();
        x.push(c0);
        proof {
            lemma_seq_view_push(oldx, c0);
        }
        let rest = self.skip1_right();
        assert(self@.y.skip(1) =~= self@.y.drop_first());
        LR1Item { left: self.left.clone(), x, y: rest.sentence, expected: self.expected.clone() }
    }

    /// The printed form `left -> x:y, expected`.
    pub fn to_string(&self) -> (res: String)
        ensures
            res@ == spec_item1_display(self@),
    {
        proof {
            reveal_strlit(" -> ");
            reveal_strlit(":");
            reveal_strlit(", ");
        }
        let mut s = String::from_str(self.left.get_str());
        s.append(" -> ");
        let a = letters_to_string(self.x.as_slice());
        s.append(a.as_str());
        s.append(":");
        let b = letters_to_string(self.y.as_slice());
        s.append(b.as_str());
        s.append(", ");
        let e = self.expected.to_string();
        s.append(e.as_str());
        s
    }
}

/// Items ordered as the derived `Ord` of `LR1Item` orders them: by `left`, `x`, `y`,
/// then `expected`.
pub open spec fn item1_lt(a: SpecItem1, b: SpecItem1) -> bool {
    letter_lt(a.left, b.left) || (a.left == b.left && (letters_lt(a.x, b.x) || (a.x == b.x && (letters_lt(a.y, b.y)
        || (a.y == b.y && letter_lt(a.expected, b.expected))))))
}

/// `item1_lt` as a function value.
pub open spec fn item1_order() -> spec_fn(SpecItem1, SpecItem1) -> bool {
    |a: SpecItem1, b: SpecItem1| item1_lt(a, b)
}

/// The order on items is a strict total order.
pub proof fn lemma_item1_strict_total()
    ensures
        strict_total(item1_order()),
{
    lemma_letter_strict_total();
    lemma_letters_strict_total();
    let l = letter_order();
    let m = letters_order();
    let o = item1_order();
    assert forall|a: SpecItem1| !(#[trigger] o(a, a)) by {
        assert(!l(a.left, a.left));
        assert(!m(a.x, a.x));
        assert(!m(a.y, a.y));
        assert(!l(a.expected, a.expected));
    }
    assert forall|a: SpecItem1, b: SpecItem1, c: SpecItem1| #[trigger] o(a, b) && #[trigger] o(b, c) implies o(a, c) by {
        if l(a.left, b.left) && l(b.left, c.left) {
            assert(l(a.left, c.left));
        }
        if m(a.x, b.x) && m(b.x, c.x) {
            assert(m(a.x, c.x));
        }
        if m(a.y, b.y) && m(b.y, c.y) {
            assert(m(a.y, c.y));
        }
        if l(a.expected, b.expected) && l(b.expected, c.expected) {
            assert(l(a.expected, c.expected));
        }
        if a.left == c.left && l(a.left, b.left) && l(b.left, c.left) {
            assert(l(a.left, a.left));
        }
        if a.left == c.left && a.x == c.x && m(a.x, b.x) && m(b.x, c.x) {
            assert(m(a.x, a.x));
        }
        if a.left == c.left && a.x == c.x && a.y == c.y && m(a.y, b.y) && m(b.y, c.y) {
            assert(m(a.y, a.y));
        }
    }
    assert forall|a: SpecItem1, b: SpecItem1| a != b implies #[trigger] o(a, b) || #[trigger] o(b, a) by {
        if a.left != b.left {
            assert(l(a.left, b.left) || l(b.left, a.left));
        } else if a.x != b.x {
            assert(m(a.x, b.x) || m(b.x, a.x));
        } else if a.y != b.y {
            assert(m(a.y, b.y) || m(b.y, a.y));
        } else {
            assert(a.expected != b.expected);
            assert(l(a.expected, b.expected) || l(b.expected, a.expected));
        }
    }
}

/// Compares two items as the derived `Ord` of `LR1Item` does.
pub fn compare_items1(a: &LR1Item, b: &LR1Item) -> (res: i8)
    ensures
        (res < 0) == item1_lt(a@, b@),
        (res == 0) == (a@ == b@),
        (res > 0) == item1_lt(b@, a@),
{
    proof {
        lemma_letter_strict_total();
        lemma_letters_strict_total();
        assert(!letter_order()(a@.left, a@.left));
        assert(!letters_order()(a@.x, a@.x));
        assert(!letters_order()(a@.y, a@.y));
    }
    let r = compare_letters(&a.left, &b.left);
    if r != 0 {
        return r;
    }
    let r = compare_letter_seqs(&a.x, &b.x);
    if r != 0 {
        return r;
    }
    let r = compare_letter_seqs(&a.y, &b.y);
    if r != 0 {
        return r;
    }
    compare_letters(&a.expected, &b.expected)
}

} // verus!

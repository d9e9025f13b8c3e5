use vstd::prelude::*;
use vstd::string::*;
use crate::grammar::order::{strict_total, letter_lt, letters_lt, letter_order, letters_order, lemma_letter_strict_total,
    lemma_letters_strict_total, compare_letters, compare_letter_seqs};
use crate::grammar::letter::{Letter, SpecLetter, seq_view, spec_letter_str, clone_letters, lemma_seq_view_push};
use crate::grammar::rule::{Rule, SpecRule, letters_eq, letters_display, letters_to_string};

verus! {

/// The kind of an LR(0) item: ready to reduce, before a terminal, or before a non terminal.
pub enum LR0ItemType {
    Reduce,
    Step,
    Pend,
}

impl LR0ItemType {
    pub fn is_reduce(&self) -> (res: bool)
        ensures
            res == (*self is Reduce),
    {
        if let LR0ItemType::Reduce = self {
            true
        } else {
            false
        }
    }

    pub fn is_step(&self) -> (res: bool)
        ensures
            res == (*self is Step),
    {
        if let LR0ItemType::Step = self {
            true
        } else {
            false
        }
    }

    pub fn is_pend(&self) -> (res: bool)
        ensures
            res == (*self is Pend),
    {
        if let LR0ItemType::Pend = self {
            true
        } else {
            false
        }
    }
}

/// The abstract value of an LR(0) item `left -> x : y`.
pub struct SpecItem0 {
    pub left: SpecLetter,
    pub x: Seq<SpecLetter>,
    pub y: Seq<SpecLetter>,
}

/// An LR(0) item `left -> x : y`: the production `left -> xy` with the dot between `x` and `y`.
#[derive(Hash, Eq, PartialOrd, Ord, Debug)]
pub struct LR0Item {
    pub left: Letter,
    pub x: Vec<Letter>,
    pub y: Vec<Letter>,
}

impl View for LR0Item {
    type V = SpecItem0;

    open spec fn view(&self) -> SpecItem0 {
        SpecItem0 { left: self.left@, x: seq_view(self.x@), y: seq_view(self.y@) }
    }
}

impl Clone for LR0Item {
    fn clone(&self) -> (res: Self)
        ensures
            res@ == self@,
    {
        LR0Item { left: self.left.clone(), x: clone_letters(&self.x), y: clone_letters(&self.y) }
    }
}

impl PartialEq for LR0Item {
    fn eq(&self, other: &Self) -> (res: bool) {
        self.left == other.left && letters_eq(&self.x, &other.x) && letters_eq(&self.y, &other.y)
    }
}

impl vstd::std_specs::cmp::PartialEqSpecImpl for LR0Item {
    open spec fn obeys_eq_spec() -> bool {
        true
    }

    open spec fn eq_spec(&self, other: &LR0Item) -> bool {
        self@ == other@
    }
}

/// The production an item belongs to; an item with nothing on either side stands for `left -> .`.
pub open spec fn item_rule(left: SpecLetter, x: Seq<SpecLetter>, y: Seq<SpecLetter>) -> SpecRule {
    SpecRule { left, right: if x.len() + y.len() == 0 { seq![SpecLetter::Empty] } else { x + y } }
}

/// The kind of an item whose part after the dot is `y`.
pub open spec fn spec_item_type(y: Seq<SpecLetter>) -> LR0ItemType {
    if y.len() == 0 {
        LR0ItemType::Reduce
    } else if y[0] is NonTerminal {
        LR0ItemType::Pend
    } else {
        LR0ItemType::Step
    }
}

/// The item of `r` with the dot at `pos`.
pub open spec fn spec_item_at(r: SpecRule, pos: int) -> SpecItem0 {
    SpecItem0 { left: r.left, x: r.right.take(pos), y: r.right.skip(pos) }
}

/// The item with the dot moved over the first symbol after it.
pub open spec fn spec_shift0(it: SpecItem0) -> SpecItem0 {
    SpecItem0 { left: it.left, x: it.x.push(it.y[0]), y: it.y.drop_first() }
}

/// Appends copies of `b` to `a`.
pub fn concat_letters(a: &Vec<Letter>, b: &Vec<Letter>) -> (res: Vec<Letter>)
    ensures
        seq_view(res@) == seq_view(a@) + seq_view(b@),
{
    let mut res = clone_letters(a);
    for i in 0..b.len()
        invariant
            seq_view(res@) == seq_view(a@) + seq_view(b@).take(i as int),
    {
        let ghost old = res@;
        let c = b[i].clone();
        res.push(c);
        proof {
            lemma_seq_view_push(old, c);
        }
        assert(seq_view(b@).take(i + 1) =~= seq_view(b@).take(i as int).push(b@[i as int]@));
        assert(seq_view(res@) =~= seq_view(a@) + seq_view(b@).take(i + 1));
    }
    assert(seq_view(b@).take(b@.len() as int) =~= seq_view(b@));
    res
}

/// The printed form of an item: `left -> x:y`.
pub open spec fn spec_item0_display(it: SpecItem0) -> Seq<char> {
    spec_letter_str(it.left) + seq![' ', '-', '>', ' '] + letters_display(it.x) + seq![':'] + letters_display(it.y)
}

impl LR0Item {
    pub fn from(left: Letter, x: Vec<Letter>, y: Vec<Letter>) -> (res: LR0Item)
        ensures
            res@ == (SpecItem0 { left: left@, x: seq_view(x@), y: seq_view(y@) }),
    {
        LR0Item { left, x, y }
    }

    /// The production of this item.
    pub fn rule(&self) -> (res: Rule)
        ensures
            res@ == item_rule(self@.left, self@.x, self@.y),
    {
        let mut temp = concat_letters(&self.x, &self.y);
        if temp.len() == 0 {
            temp.push(Letter::Empty);
            assert(seq_view(temp@) =~= seq![SpecLetter::Empty]);
            assert(self@.x + self@.y =~= Seq::<SpecLetter>::empty());
        }
        Rule { left: self.left.clone(), right: temp }
    }

    /// The kind of this item; the symbol after the dot must be a terminal or non terminal.
    pub fn item_type(&self) -> (res: LR0ItemType)
        requires
            self@.y.len() > 0 ==> (self@.y[0] is NonTerminal || self@.y[0] is Terminal),
        ensures
            res == spec_item_type(self@.y),
    {
        if self.y.len() == 0 {
            LR0ItemType::Reduce
        } else {
            assert(self@.y[0] == self.y@[0]@);
            if self.y[0].is_non_terminal() {
                LR0ItemType::Pend
            } else {
                LR0ItemType::Step
            }
        }
    }

    /// The item `left -> :` of an empty production.
    pub fn new_empty(left: Letter) -> (res: LR0Item)
        ensures
            res@ == (SpecItem0 { left: left@, x: seq![], y: seq![] }),
    {
        let res = LR0Item { left, x: Vec::new(), y: Vec::new() };
        assert(res@.x =~= seq![]);
        assert(res@.y =~= seq![]);
        res
    }

    /// The item of `rule` with the dot before position `position` of its right side.
    pub fn from_rule_and_position(rule: &Rule, position: usize) -> (res: LR0Item)
        requires
            position <= rule@.right.len(),
        ensures
            res@ == spec_item_at(rule@, position as int),
    {
        let mut x: Vec<Letter> = Vec::new();
        let mut y: Vec<Letter> = Vec::new();
        for i in 0..position
            invariant
                position <= rule.right@.len(),
                seq_view(x@) == seq_view(rule.right@).take(i as int),
        {
            let ghost old = x@;
            let c = rule.right[i].clone();
            x.push(c);
            proof {
                lemma_seq_view_push(old, c);
            }
            assert(seq_view(x@) =~= seq_view(rule.right@).take(i + 1));
        }
        for i in position..rule.right.len()
            invariant
                position <= i <= rule.right@.len(),
                seq_view(y@) == seq_view(rule.right@).subrange(position as int, i as int),
        {
            let ghost old = y@;
            let c = rule.right[i].clone();
            y.push(c);
            proof {
                lemma_seq_view_push(old, c);
            }
            assert(seq_view(y@) =~= seq_view(rule.right@).subrange(position as int, i + 1));
        }
        assert(seq_view(rule.right@).subrange(position as int, rule.right@.len() as int) =~= seq_view(rule.right@).skip(position as int));
        LR0Item { left: rule.left.clone(), x, y }
    }

    /// The item with the dot moved over the first symbol after it.
    pub fn shift_right(&self) -> (res: LR0Item)
        requires
            self@.y.len() > 0,
        ensures
            res@ == spec_shift0(self@),
    {
        let mut x = clone_letters(&self.x);
        let ghost oldx = x@;
        let c0 = self.y[0].clone();
        x.push(c0);
        proof {
            lemma_seq_view_push(oldx, c0);
        }
        let mut y: Vec<Letter> = Vec::new();
        for i in 1..self.y.len()
            invariant
                1 <= i <= self.y@.len(),
                seq_view(y@) == seq_view(self.y@).subrange(1, i as int),
        {
            let ghost old = y@;
            let c = self.y[i].clone();
            y.push(c);
            proof {
                lemma_seq_view_push(old, c);
            }
            assert(seq_view(y@) =~= seq_view(self.y@).subrange(1, i + 1));
        }
        let res = LR0Item { left: self.left.clone(), x, y };
        assert(res@.x =~= self@.x.push(self@.y[0]));
        assert(res@.y =~= self@.y.drop_first());
        res
    }

    /// The printed form `left -> x:y`.
    pub fn to_string(&self) -> (res: String)
        ensures
            res@ == spec_item0_display(self@),
    {
        proof {
            reveal_strlit(" -> ");
            reveal_strlit(":");
        }
        let mut s = String::from_str(self.left.get_str());
        s.append(" -> ");
        let a = letters_to_string(self.x.as_slice());
        s.append(a.as_str());
        s.append(":");
        let b = letters_to_string(self.y.as_slice());
        s.append(b.as_str());
        s
    }
}

/// Items ordered as the derived `Ord` of `LR0Item` orders them: by `left`, then `x`, then `y`.
pub open spec fn item0_lt(a: SpecItem0, b: SpecItem0) -> bool {
    letter_lt(a.left, b.left) || (a.left == b.left && (letters_lt(a.x, b.x) || (a.x == b.x && letters_lt(a.y, b.y))))
}

/// `item0_lt` as a function value.
pub open spec fn item0_order() -> spec_fn(SpecItem0, SpecItem0) -> bool {
    |a: SpecItem0, b: SpecItem0| item0_lt(a, b)
}

/// The order on items is a strict total order.
pub proof fn lemma_item0_strict_total()
    ensures
        strict_total(item0_order()),
{
    lemma_letter_strict_total();
    lemma_letters_strict_total();
    let l = letter_order();
    let m = letters_order();
    let o = item0_order();
    assert forall|a: SpecItem0| !(#[trigger] o(a, a)) by {
        assert(!l(a.left, a.left));
        assert(!m(a.x, a.x));
        assert(!m(a.y, a.y));
    }
    assert forall|a: SpecItem0, b: SpecItem0, c: SpecItem0| #[trigger] o(a, b) && #[trigger] o(b, c) implies o(a, c) by {
        if l(a.left, b.left) && l(b.left, c.left) {
            assert(l(a.left, c.left));
        }
        if m(a.x, b.x) && m(b.x, c.x) {
            assert(m(a.x, c.x));
        }
        if m(a.y, b.y) && m(b.y, c.y) {
            assert(m(a.y, c.y));
        }
        if a.left == c.left && l(a.left, b.left) && l(b.left, c.left) {
            assert(l(a.left, a.left));
        }
        if a.left == c.left && a.x == c.x && m(a.x, b.x) && m(b.x, c.x) {
            assert(m(a.x, a.x));
        }
    }
    assert forall|a: SpecItem0, b: SpecItem0| a != b implies #[trigger] o(a, b) || #[trigger] o(b, a) by {
        if a.left != b.left {
            assert(l(a.left, b.left) || l(b.left, a.left));
        } else if a.x != b.x {
            assert(m(a.x, b.x) || m(b.x, a.x));
        } else {
            assert(a.y != b.y);
            assert(m(a.y, b.y) || m(b.y, a.y));
        }
    }
}

/// Compares two items as the derived `Ord` of `LR0Item` does.
pub fn compare_items0(a: &LR0Item, b: &LR0Item) -> (res: i8)
    ensures
        (res < 0) == item0_lt(a@, b@),
        (res == 0) == (a@ == b@),
        (res > 0) == item0_lt(b@, a@),
{
    proof {
        lemma_letter_strict_total();
        lemma_letters_strict_total();
        assert(!letter_order()(a@.left, a@.left));
        assert(!letters_order()(a@.x, a@.x));
    }
    let r = compare_letters(&a.left, &b.left);
    if r != 0 {
        return r;
    }
    let r = compare_letter_seqs(&a.x, &b.x);
    if r != 0 {
        return r;
    }
    compare_letter_seqs(&a.y, &b.y)
}

} // verus!

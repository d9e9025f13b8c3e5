use vstd::prelude::*;
use vstd::string::*;
use super::letter::{Letter, SpecLetter, seq_view, spec_letter_str, spec_letter_display, clone_letters};
use super::sentence::Sentence;

verus! {

/// The abstract value of a production `left -> right`.
pub struct SpecRule {
    pub left: SpecLetter,
    pub right: Seq<SpecLetter>,
}

/// A production `left -> right`.
#[derive(Debug)]
pub struct Rule {
    pub left: Letter,
    pub right: Vec<Letter>,
}

impl View for Rule {
    type V = SpecRule;

    open spec fn view(&self) -> SpecRule {
        SpecRule { left: self.left@, right: seq_view(self.right@) }
    }
}

/// The abstract values of a vector of rules.
pub open spec fn rules_view(s: Seq<Rule>) -> Seq<SpecRule> {
    s.map_values(|r: Rule| r@)
}

/// Whether two vectors of letters hold the same symbols.
pub fn letters_eq(a: &Vec<Letter>, b: &Vec<Letter>) -> (res: bool)
    ensures
        res == (seq_view(a@) == seq_view(b@)),
{
    if a.len() != b.len() {
        assert(seq_view(a@).len() != seq_view(b@).len());
        return false;
    }
    for i in 0..a.len()
        invariant
            a@.len() == b@.len(),
            forall|j: int| 0 <= j < i ==> a@[j]@ == b@[j]@,
    {
        if a[i] != b[i] {
            assert(seq_view(a@)[i as int] != seq_view(b@)[i as int]);
            return false;
        }
    }
    assert(seq_view(a@) =~= seq_view(b@));
    true
}

impl Clone for Rule {
    fn clone(&self) -> (res: Self)
        ensures
            res@ == self@,
    {
        Rule { left: self.left.clone(), right: clone_letters(&self.right) }
    }
}

impl PartialEq for Rule {
    fn eq(&self, other: &Self) -> (res: bool) {
        self.left == other.left && letters_eq(&self.right, &other.right)
    }
}

impl vstd::std_specs::cmp::PartialEqSpecImpl for Rule {
    open spec fn obeys_eq_spec() -> bool {
        true
    }

    open spec fn eq_spec(&self, other: &Rule) -> bool {
        self@ == other@
    }
}

/// The scanner state while reading the right side of a production:
/// whether a `{` is open, the name read since it opened, and the symbols read so far.
pub struct ScanState {
    pub in_brace: bool,
    pub name: Seq<char>,
    pub out: Seq<SpecLetter>,
}

/// One character of a right side: `{name}` is a non terminal, `.` the empty word,
/// any other character a terminal of that one character.
pub open spec fn scan_step(st: ScanState, c: char) -> ScanState {
    if st.in_brace {
        if c == '}' {
            ScanState { in_brace: false, name: seq![], out: st.out.push(SpecLetter::NonTerminal(st.name)) }
        } else {
            ScanState { in_brace: true, name: st.name.push(c), out: st.out }
        }
    } else if c == '{' {
        ScanState { in_brace: true, name: st.name, out: st.out }
    } else if c == '.' {
        ScanState { in_brace: false, name: st.name, out: st.out.push(SpecLetter::Empty) }
    } else {
        ScanState { in_brace: false, name: st.name, out: st.out.push(SpecLetter::Terminal(seq![c])) }
    }
}

/// The scanner state after reading all of `cs`.
pub open spec fn scan(cs: Seq<char>) -> ScanState
    decreases cs.len(),
{
    if cs.len() == 0 {
        ScanState { in_brace: false, name: seq![], out: seq![] }
    } else {
        scan_step(scan(cs.drop_last()), cs.last())
    }
}

/// The symbols of a right side written as text; an unclosed `{name` is dropped.
pub open spec fn spec_parse_right(cs: Seq<char>) -> Seq<SpecLetter> {
    scan(cs).out
}

/// The pieces of `s` between occurrences of `c`, as `str::split` gives them.
pub open spec fn split_on(s: Seq<char>, c: char) -> Seq<Seq<char>>
    decreases s.len(),
{
    if s.len() == 0 {
        seq![seq![]]
    } else {
        let r = split_on(s.drop_last(), c);
        if s.last() == c {
            r.push(seq![])
        } else {
            r.update(r.len() - 1, r.last().push(s.last()))
        }
    }
}

pub proof fn lemma_split_on_nonempty(s: Seq<char>, c: char)
    ensures
        split_on(s, c).len() >= 1,
    decreases s.len(),
{
    if s.len() > 0 {
        lemma_split_on_nonempty(s.drop_last(), c);
    }
}

/// The characters of a string.
pub fn str_chars(s: &str) -> (res: Vec<char>)
    ensures
        res@ == s@,
{
    let n = s.unicode_len();
    let mut v: Vec<char> = Vec::new();
    for i in 0..n
        invariant
            n == s@.len(),
            v@ == s@.take(i as int),
    {
        v.push(s.get_char(i));
        assert(v@ =~= s@.take(i + 1));
    }
    assert(v@ =~= s@);
    v
}

/// A string holding the given characters: `String::from_iter` on them.
#[verifier::external_body]
pub(crate) fn string_from_chars(v: Vec<char>) -> (res: String)
    ensures
        res@ == v@,
{
    String::from_iter(v)
}

/// Splits a character sequence at every occurrence of `c`.
pub fn split_chars(s: &Vec<char>, c: char) -> (res: Vec<Vec<char>>)
    ensures
        res@.map_values(|p: Vec<char>| p@) == split_on(s@, c),
{
    let mut parts: Vec<Vec<char>> = Vec::new();
    let mut cur: Vec<char> = Vec::new();
    for i in 0..s.len()
        invariant
            parts@.map_values(|p: Vec<char>| p@).push(cur@) == split_on(s@.take(i as int), c),
    {
        proof {
            assert(s@.take(i + 1).drop_last() =~= s@.take(i as int));
            lemma_split_on_nonempty(s@.take(i as int), c);
        }
        let ghost before = parts@.map_values(|p: Vec<char>| p@).push(cur@);
        if s[i] == c {
            parts.push(cur);
            cur = Vec::new();
            assert(parts@.map_values(|p: Vec<char>| p@).push(cur@) =~= before.push(seq![]));
        } else {
            cur.push(s[i]);
            assert(parts@.map_values(|p: Vec<char>| p@).push(cur@) =~= before.update(
                before.len() - 1,
                before.last().push(s@[i as int]),
            ));
        }
    }
    assert(s@.take(s@.len() as int) =~= s@);
    parts.push(cur);
    parts
}

/// The printed form of a production: the left side's name, ` -> `, then each right symbol printed.
pub open spec fn spec_rule_display(r: SpecRule) -> Seq<char> {
    spec_letter_str(r.left) + seq![' ', '-', '>', ' '] + letters_display(r.right)
}

/// The symbols of `s` printed one after another.
pub open spec fn letters_display(s: Seq<SpecLetter>) -> Seq<char>
    decreases s.len(),
{
    if s.len() == 0 {
        seq![]
    } else {
        letters_display(s.drop_last()) + spec_letter_display(s.last())
    }
}

/// Prints the symbols of `v` one after another.
pub fn letters_to_string(v: &[Letter]) -> (res: String)
    ensures
        res@ == letters_display(seq_view(v@)),
{
    let mut s = String::new();
    for i in 0..v.len()
        invariant
            s@ == letters_display(seq_view(v@).take(i as int)),
    {
        let t = v[i].to_string();
        s.append(t.as_str());
        assert(seq_view(v@).take(i + 1).drop_last() =~= seq_view(v@).take(i as int));
    }
    assert(seq_view(v@).take(v@.len() as int) =~= seq_view(v@));
    s
}

impl Rule {
    pub fn new(left: Letter, right: Vec<Letter>) -> (res: Rule)
        ensures
            res@ == (SpecRule { left: left@, right: seq_view(right@) }),
    {
        Rule { left, right }
    }

    /// The production `left -> right` where `right` is written with `{name}` for a
    /// non terminal, `.` for the empty word and any other character for a terminal.
    pub fn from_single(left: &str, right: &str) -> (res: Rule)
        ensures
            res@ == (SpecRule { left: SpecLetter::NonTerminal(left@), right: spec_parse_right(right@) }),
    {
        let cs = str_chars(right);
        Rule::from_single_chars(left, &cs)
    }

    fn from_single_chars(left: &str, right: &Vec<char>) -> (res: Rule)
        ensures
            res@ == (SpecRule { left: SpecLetter::NonTerminal(left@), right: spec_parse_right(right@) }),
    {
        let left_letter = Letter::NonTerminal(String::from_str(left));
        let mut rights: Vec<Letter> = Vec::new();
        let mut flag = false;
        let mut temp: Vec<char> = Vec::new();
        assert(right@.take(0) =~= Seq::<char>::empty());
        assert(seq_view(rights@) =~= Seq::<SpecLetter>::empty());
        assert(temp@ =~= Seq::<char>::empty());
        for i in 0..right.len()
            invariant
                scan(right@.take(i as int)) == (ScanState { in_brace: flag, name: temp@, out: seq_view(rights@) }),
        {
            let c = right[i];
            let ghost st = scan(right@.take(i as int));
            assert(right@.take(i + 1).drop_last() =~= right@.take(i as int));
            if flag {
                if c == '}' {
                    flag = false;
                    let name = string_from_chars(temp);
                    rights.push(Letter::NonTerminal(name));
                    temp = Vec::new();
                } else {
                    temp.push(c);
                }
            } else {
                if c == '{' {
                    flag = true;
                } else if c == '.' {
                    rights.push(Letter::Empty);
                } else {
                    let mut one: Vec<char> = Vec::new();
                    one.push(c);
                    rights.push(Letter::Terminal(string_from_chars(one)));
                }
            }
            assert(seq_view(rights@) =~= scan_step(st, c).out);
            assert(temp@ =~= scan_step(st, c).name);
        }
        assert(right@.take(right@.len() as int) =~= right@);
        Rule { left: left_letter, right: rights }
    }

    /// Reads `left right1|right2|...`: a left side, one space, and the right
    /// sides separated by `|`.
    pub fn rules_from_str(s: &str) -> (res: Result<Vec<Rule>, String>)
        ensures
            split_on(s@, ' ').len() != 2 ==> (res matches Err(e) && e@ == "wrong format"@),
            split_on(s@, ' ').len() == 2 ==> (res matches Ok(rules) && rules_view(rules@) == split_on(
                split_on(s@, ' ')[1],
                '|',
            ).map_values(
                |r: Seq<char>|
                    SpecRule {
                        left: SpecLetter::NonTerminal(split_on(s@, ' ')[0]),
                        right: spec_parse_right(r),
                    },
            )),
    {
        let cs = str_chars(s);
        let temp = split_chars(&cs, ' ');
        proof {
            assert(temp@.len() == temp@.map_values(|p: Vec<char>| p@).len());
        }
        if temp.len() != 2 {
            proof {
                reveal_strlit("wrong format");
            }
            return Err(String::from_str("wrong format"));
        }
        let left_chars: Vec<char> = temp[0].clone();
        assert(left_chars@ == temp@[0]@) by {
            assert(left_chars@ =~= temp@[0]@);
        }
        let left = string_from_chars(left_chars);
        let rights = split_chars(&temp[1], '|');
        let ghost want = split_on(split_on(s@, ' ')[1], '|').map_values(
            |r: Seq<char>| SpecRule { left: SpecLetter::NonTerminal(split_on(s@, ' ')[0]), right: spec_parse_right(r) },
        );
        assert(temp@.map_values(|p: Vec<char>| p@)[0] == temp@[0]@);
        assert(temp@.map_values(|p: Vec<char>| p@)[1] == temp@[1]@);
        assert(rights@.len() == rights@.map_values(|p: Vec<char>| p@).len());
        let mut ans: Vec<Rule> = Vec::new();
        for i in 0..rights.len()
            invariant
                left@ == split_on(s@, ' ')[0],
                rights@.map_values(|p: Vec<char>| p@) == split_on(split_on(s@, ' ')[1], '|'),
                want == split_on(split_on(s@, ' ')[1], '|').map_values(
                    |r: Seq<char>| SpecRule { left: SpecLetter::NonTerminal(split_on(s@, ' ')[0]), right: spec_parse_right(r) },
                ),
                ans@.len() == i,
                forall|j: int| 0 <= j < i ==> #[trigger] ans@[j]@ == want[j],
        {
            assert(rights@.map_values(|p: Vec<char>| p@)[i as int] == rights@[i as int]@);
            let rule = Rule::from_single_chars(left.as_str(), &rights[i]);
            ans.push(rule);
        }
        assert(rules_view(ans@) =~= want);
        Ok(ans)
    }

    pub fn right_sentence(&self) -> (res: Sentence)
        ensures
            res@ == self@.right,
    {
        Sentence::from_slice(self.right.as_slice())
    }

    /// Whether this is a production `A -> .` of the empty word.
    pub fn is_empty(&self) -> (res: bool)
        ensures
            res == (self@.right.len() == 1 && self@.right[0] is Empty),
    {
        self.right.len() == 1 && self.right[0].is_empty()
    }

    /// The printed form `A -> right`.
    pub fn to_string(&self) -> (res: String)
        ensures
            res@ == spec_rule_display(self@),
    {
        proof {
            reveal_strlit(" -> ");
        }
        let mut s = String::from_str(self.left.get_str());
        s.append(" -> ");
        let r = letters_to_string(self.right.as_slice());
        s.append(r.as_str());
        s
    }
}

} // verus!

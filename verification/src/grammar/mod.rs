pub mod letter;
pub mod sentence;
pub mod rule;
pub mod input;
pub mod check;
pub mod order;

use vstd::prelude::*;
use vstd::string::*;
use letter::{Letter, SpecLetter, seq_view, contains, clone_letters, spec_letter_str, spec_letter_display};
use rule::{Rule, SpecRule, rules_view, spec_rule_display, letters_eq, spec_parse_right, str_chars, string_from_chars};

verus! {

/// The abstract value of a grammar.
pub struct SpecGrammar {
    pub rules: Seq<SpecRule>,
    pub origin: SpecLetter,
    pub terminals: Seq<SpecLetter>,
    pub non_terminals: Seq<SpecLetter>,
}

/// A context-free grammar: its productions, its start symbol, and its
/// terminal and non terminal symbols.
#[derive(Debug)]
pub struct Grammar {
    pub rules: Vec<Rule>,
    pub origin: Letter,
    pub terminals: Vec<Letter>,
    pub non_terminals: Vec<Letter>,
}

impl View for Grammar {
    type V = SpecGrammar;

    open spec fn view(&self) -> SpecGrammar {
        SpecGrammar {
            rules: rules_view(self.rules@),
            origin: self.origin@,
            terminals: seq_view(self.terminals@),
            non_terminals: seq_view(self.non_terminals@),
        }
    }
}

/// A right-side symbol that the grammar declares: a declared non terminal or a declared terminal.
pub open spec fn declared_symbol(g: SpecGrammar, x: SpecLetter) -> bool {
    ||| (x is NonTerminal && g.non_terminals.contains(x))
    ||| (x is Terminal && g.terminals.contains(x))
}

/// A production whose left side is declared, whose right side is not empty, and which is
/// either `A -> .` or made of declared symbols only.
pub open spec fn wf_rule(g: SpecGrammar, r: SpecRule) -> bool {
    &&& g.non_terminals.contains(r.left)
    &&& r.right.len() > 0
    &&& (r.right == seq![SpecLetter::Empty] || forall|i: int|
        0 <= i < r.right.len() ==> declared_symbol(g, #[trigger] r.right[i]))
}

/// Whether some production has `x` on its left side.
pub open spec fn has_rule_for(rules: Seq<SpecRule>, x: SpecLetter) -> bool {
    exists|k: int| 0 <= k < rules.len() && (#[trigger] rules[k]).left == x
}

impl SpecGrammar {
    /// A grammar that the analyses can work on: every production is well formed,
    /// every non terminal has a production, the start symbol is a non terminal,
    /// and the symbol lists hold symbols of their kind, each once.
    pub open spec fn wf(self) -> bool {
        &&& forall|k: int| 0 <= k < self.rules.len() ==> wf_rule(self, #[trigger] self.rules[k])
        &&& self.non_terminals.contains(self.origin)
        &&& forall|i: int| 0 <= i < self.non_terminals.len() ==> (#[trigger] self.non_terminals[i]) is NonTerminal
        &&& forall|i: int| 0 <= i < self.non_terminals.len() ==> has_rule_for(self.rules, #[trigger] self.non_terminals[i])
        &&& forall|i: int| 0 <= i < self.terminals.len() ==> (#[trigger] self.terminals[i]) is Terminal
        &&& self.non_terminals.no_duplicates()
        &&& self.terminals.no_duplicates()
    }
}

/// A production lets its left side derive the empty word once every symbol of
/// `s` does: it is `A -> .`, or its right side is made of non terminals in `s`.
pub open spec fn rule_nullable_in(r: SpecRule, s: Set<SpecLetter>) -> bool {
    ||| (r.right.len() > 0 && r.right[0] is Empty)
    ||| (forall|i: int| 0 <= i < r.right.len() ==> (#[trigger] r.right[i]) is NonTerminal && s.contains(r.right[i]))
}

/// `s` is closed under the productions: a left side whose production is nullable in `s` is in `s`.
pub open spec fn nullable_closed(rules: Seq<SpecRule>, s: Set<SpecLetter>) -> bool {
    forall|k: int| 0 <= k < rules.len() && rule_nullable_in(#[trigger] rules[k], s) ==> s.contains(rules[k].left)
}

/// The symbols that derive the empty word: those in every set closed under the productions.
pub open spec fn spec_empties(rules: Seq<SpecRule>) -> Set<SpecLetter> {
    Set::new(|x: SpecLetter| forall|s: Set<SpecLetter>| nullable_closed(rules, s) ==> #[trigger] s.contains(x))
}

/// The left sides of the productions.
pub open spec fn lefts_of(rules: Seq<SpecRule>) -> Set<SpecLetter> {
    Set::new(|x: SpecLetter| has_rule_for(rules, x))
}

/// The terminals that occur on the right side of some production.
pub open spec fn terminals_of(rules: Seq<SpecRule>) -> Set<SpecLetter> {
    Set::new(
        |x: SpecLetter|
            x is Terminal && exists|k: int, i: int|
                0 <= k < rules.len() && 0 <= i < rules[k].right.len() && (#[trigger] rules[k].right[i]) == x,
    )
}

/// The name of the start symbol added by `expand`: the old name followed by `_EX`.
pub open spec fn expanded_name(origin: SpecLetter) -> Seq<char> {
    spec_letter_str(origin) + seq!['_', 'E', 'X']
}

fn rules_eq(a: &Vec<Rule>, b: &Vec<Rule>) -> (res: bool)
    ensures
        res == (rules_view(a@) == rules_view(b@)),
{
    if a.len() != b.len() {
        assert(rules_view(a@).len() != rules_view(b@).len());
        return false;
    }
    for i in 0..a.len()
        invariant
            a@.len() == b@.len(),
            forall|j: int| 0 <= j < i ==> a@[j]@ == b@[j]@,
    {
        if a[i] != b[i] {
            assert(rules_view(a@)[i as int] != rules_view(b@)[i as int]);
            return false;
        }
    }
    assert(rules_view(a@) =~= rules_view(b@));
    true
}

impl PartialEq for Grammar {
    fn eq(&self, other: &Self) -> (res: bool) {
        rules_eq(&self.rules, &other.rules) && self.origin == other.origin && letters_eq(
            &self.terminals,
            &other.terminals,
        ) && letters_eq(&self.non_terminals, &other.non_terminals)
    }
}

impl vstd::std_specs::cmp::PartialEqSpecImpl for Grammar {
    open spec fn obeys_eq_spec() -> bool {
        true
    }

    open spec fn eq_spec(&self, other: &Grammar) -> bool {
        self@ == other@
    }
}

impl Grammar {
    pub fn new() -> (res: Grammar)
        ensures
            res@ == (SpecGrammar {
                rules: seq![],
                origin: SpecLetter::Empty,
                terminals: seq![],
                non_terminals: seq![],
            }),
    {
        let res = Grammar {
            rules: Vec::new(),
            origin: Letter::Empty,
            terminals: Vec::new(),
            non_terminals: Vec::new(),
        };
        assert(res@.rules =~= seq![]);
        assert(res@.terminals =~= seq![]);
        assert(res@.non_terminals =~= seq![]);
        res
    }

    /// The non terminals that derive the empty word, each once.
    pub fn calc_empties(&self) -> (res: Vec<Letter>)
        requires
            forall|k: int| 0 <= k < self@.rules.len() ==> (#[trigger] self@.rules[k]).right.len() > 0,
        ensures
            seq_view(res@).no_duplicates(),
            seq_view(res@).to_set() == spec_empties(self@.rules),
    {
        let ghost rules = self@.rules;
        let mut h: Vec<Letter> = Vec::new();
        for k in 0..self.rules.len()
            invariant
                rules == self@.rules,
                forall|k: int| 0 <= k < rules.len() ==> (#[trigger] rules[k]).right.len() > 0,
                seq_view(h@).no_duplicates(),
                forall|i: int| 0 <= i < h@.len() ==> #[trigger] spec_empties(rules).contains(seq_view(h@)[i]),
                forall|i: int| 0 <= i < h@.len() ==> has_rule_for(rules, #[trigger] seq_view(h@)[i]),
                forall|j: int| 0 <= j < k && (#[trigger] rules[j]).right[0] is Empty ==> seq_view(h@).contains(rules[j].left),
        {
            assert(rules[k as int] == self.rules@[k as int]@);
            let ghost hb = seq_view(h@);
            if self.rules[k].right[0].is_empty() {
                if !contains(&h, &self.rules[k].left) {
                    let ghost old_h = seq_view(h@);
                    h.push(self.rules[k].left.clone());
                    assert(seq_view(h@) =~= old_h.push(rules[k as int].left));
                    assert forall|i: int| 0 <= i < h@.len() implies #[trigger] spec_empties(rules).contains(
                        seq_view(h@)[i],
                    ) by {
                        if i == h@.len() - 1 {
                            assert forall|s: Set<SpecLetter>| nullable_closed(rules, s) implies #[trigger] s.contains(seq_view(h@)[i]) by {
                                assert(rule_nullable_in(rules[k as int], s));
                            }
                        } else {
                            assert(seq_view(h@)[i] == old_h[i]);
                        }
                    }
                    assert forall|i: int| 0 <= i < h@.len() implies has_rule_for(
                        rules,
                        #[trigger] seq_view(h@)[i],
                    ) by {
                        if i < h@.len() - 1 {
                            assert(seq_view(h@)[i] == old_h[i]);
                        }
                    }
                }
            }
            assert forall|j: int| 0 <= j < k + 1 && (#[trigger] rules[j]).right[0] is Empty implies seq_view(h@).contains(rules[j].left) by {
                if j < k {
                    assert(hb.contains(rules[j].left));
                    let m = choose|m: int| 0 <= m < hb.len() && hb[m] == rules[j].left;
                    assert(seq_view(h@)[m] == hb[m]);
                } else {
                    if hb.contains(rules[j].left) {
                        let m = choose|m: int| 0 <= m < hb.len() && hb[m] == rules[j].left;
                        assert(seq_view(h@)[m] == hb[m]);
                    } else {
                        assert(seq_view(h@)[seq_view(h@).len() - 1] == rules[j].left);
                    }
                }
            }
        }
        loop
            invariant
                rules == self@.rules,
                forall|k: int| 0 <= k < rules.len() ==> (#[trigger] rules[k]).right.len() > 0,
                seq_view(h@).no_duplicates(),
                forall|i: int| 0 <= i < h@.len() ==> #[trigger] spec_empties(rules).contains(seq_view(h@)[i]),
                forall|i: int| 0 <= i < h@.len() ==> has_rule_for(rules, #[trigger] seq_view(h@)[i]),
                forall|k: int| 0 <= k < rules.len() && (#[trigger] rules[k]).right[0] is Empty ==> seq_view(h@).contains(rules[k].left),
            decreases rules.len() - h@.len(),
        {
            let ghost h0 = seq_view(h@);
            let mut new_flag = false;
            for k in 0..self.rules.len()
                invariant
                    rules == self@.rules,
                    forall|k: int| 0 <= k < rules.len() ==> (#[trigger] rules[k]).right.len() > 0,
                    seq_view(h@).no_duplicates(),
                    forall|i: int| 0 <= i < h@.len() ==> #[trigger] spec_empties(rules).contains(seq_view(h@)[i]),
                    forall|i: int| 0 <= i < h@.len() ==> has_rule_for(rules, #[trigger] seq_view(h@)[i]),
                    forall|k: int| 0 <= k < rules.len() && (#[trigger] rules[k]).right[0] is Empty ==> seq_view(h@).contains(rules[k].left),
                    h@.len() >= h0.len(),
                    forall|i: int| 0 <= i < h0.len() ==> seq_view(h@)[i] == h0[i],
                    new_flag <==> h@.len() > h0.len(),
                    !new_flag ==> forall|j: int|
                        0 <= j < k && rule_nullable_in(#[trigger] rules[j], h0.to_set()) ==> h0.contains(rules[j].left),
            {
                assert(rules[k as int] == self.rules@[k as int]@);
                if !contains(&h, &self.rules[k].left) {
                    let mut flag = false;
                    let rule = &self.rules[k];
                    let mut i: usize = 0;
                    while i < rule.right.len() && !flag
                        invariant
                            0 <= k < rules.len(),
                            i <= rule.right@.len(),
                            rule@ == rules[k as int],
                            !flag ==> forall|j: int| 0 <= j < i ==> (#[trigger] rules[k as int].right[j]) is NonTerminal
                                && seq_view(h@).contains(rules[k as int].right[j]),
                            flag ==> exists|j: int| 0 <= j < rules[k as int].right.len() && !((#[trigger] rules[k as int].right[j]) is NonTerminal
                                && seq_view(h@).contains(rules[k as int].right[j])),
                        decreases rule.right@.len() - i,
                    {
                        assert(rule@.right[i as int] == rule.right@[i as int]@);
                        if rule.right[i].is_non_terminal() {
                            if !contains(&h, &rule.right[i]) {
                                assert(!((rules[k as int].right[i as int]) is NonTerminal && seq_view(h@).contains(rules[k as int].right[i as int])));
                                flag = true;
                            }
                        } else {
                            assert(!((rules[k as int].right[i as int]) is NonTerminal));
                            flag = true;
                        }
                        i = i + 1;
                    }
                    if !flag {
                        let ghost old_h = seq_view(h@);
                        assert(rule_nullable_in(rules[k as int], old_h.to_set()));
                        h.push(rule.left.clone());
                        assert(seq_view(h@) =~= old_h.push(rules[k as int].left));
                        new_flag = true;
                        assert forall|i: int| 0 <= i < h@.len() implies #[trigger] spec_empties(rules).contains(
                            seq_view(h@)[i],
                        ) by {
                            if i == h@.len() - 1 {
                                assert forall|s: Set<SpecLetter>| nullable_closed(rules, s) implies #[trigger] s.contains(seq_view(h@)[i]) by {
                                    assert forall|j: int| 0 <= j < rules[k as int].right.len() implies (
                                    #[trigger] rules[k as int].right[j]) is NonTerminal && s.contains(rules[k as int].right[j]) by {
                                        assert(old_h.contains(rules[k as int].right[j]));
                                        let m = choose|m: int| 0 <= m < old_h.len() && old_h[m] == rules[k as int].right[j];
                                        assert(seq_view(h@)[m] == old_h[m]);
                                        assert(spec_empties(rules).contains(seq_view(h@)[m]));
                                    }
                                    assert(rule_nullable_in(rules[k as int], s));
                                }
                            } else {
                                assert(seq_view(h@)[i] == old_h[i]);
                            }
                        }
                        assert forall|i: int| 0 <= i < h@.len() implies has_rule_for(
                            rules,
                            #[trigger] seq_view(h@)[i],
                        ) by {
                            if i < h@.len() - 1 {
                                assert(seq_view(h@)[i] == old_h[i]);
                            }
                        }
                        assert forall|j: int| 0 <= j < rules.len() && (#[trigger] rules[j]).right[0] is Empty implies seq_view(h@).contains(rules[j].left) by {
                            assert(old_h.contains(rules[j].left));
                            let m = choose|m: int| 0 <= m < old_h.len() && old_h[m] == rules[j].left;
                            assert(seq_view(h@)[m] == old_h[m]);
                        }
                    } else {
                        proof {
                            if !new_flag {
                                assert(seq_view(h@) =~= h0);
                                if rule_nullable_in(rules[k as int], h0.to_set()) {
                                    if rules[k as int].right[0] is Empty {
                                    } else {
                                        assert forall|j: int| 0 <= j < rules[k as int].right.len() implies (
                                        #[trigger] rules[k as int].right[j]) is NonTerminal && seq_view(h@).contains(rules[k as int].right[j]) by {
                                            assert(h0.to_set().contains(rules[k as int].right[j]));
                                        }
                                    }
                                }
                            }
                        }
                    }
                } else {
                    proof {
                        if !new_flag {
                            assert(seq_view(h@) =~= h0);
                        }
                    }
                }
            }
            if !new_flag {
                proof {
                    assert(seq_view(h@) =~= h0);
                    assert forall|k: int| 0 <= k < rules.len() && rule_nullable_in(#[trigger] rules[k], h0.to_set()) implies h0.to_set().contains(rules[k].left) by {
                        assert(h0.contains(rules[k].left));
                    }
                    assert(nullable_closed(rules, h0.to_set()));
                    assert forall|x: SpecLetter| #[trigger] spec_empties(rules).contains(x) implies h0.to_set().contains(x) by {
                        assert(nullable_closed(rules, h0.to_set()));
                    }
                    assert forall|x: SpecLetter| h0.to_set().contains(x) implies #[trigger] spec_empties(rules).contains(x) by {
                        let m = choose|m: int| 0 <= m < h0.len() && h0[m] == x;
                        assert(spec_empties(rules).contains(seq_view(h@)[m]));
                    }
                    assert(h0.to_set() =~= spec_empties(rules));
                }
                return h;
            }
            proof {
                assert forall|i: int| 0 <= i < seq_view(h@).len() implies rules.map_values(|r: SpecRule| r.left).contains(
                    #[trigger] seq_view(h@)[i],
                ) by {
                    let k = choose|k: int| 0 <= k < rules.len() && (#[trigger] rules[k]).left == seq_view(h@)[i];
                    assert(rules.map_values(|r: SpecRule| r.left)[k] == seq_view(h@)[i]);
                }
                crate::utils::lemma_distinct_within_seq_len(seq_view(h@), rules.map_values(|r: SpecRule| r.left));
            }
        }
    }

    pub fn from_rules(rules: Vec<Rule>, origin: Letter) -> (res: Result<Grammar, String>)
        ensures
            !(origin@ is NonTerminal) ==> (res matches Err(e) && e@ == "only non terminal can be origin"@),
            origin@ is NonTerminal ==> (res matches Ok(g) && {
                &&& g@.rules == rules_view(rules@)
                &&& g@.origin == origin@
                &&& g@.non_terminals.no_duplicates()
                &&& g@.non_terminals.to_set() == lefts_of(rules_view(rules@))
                &&& g@.terminals.no_duplicates()
                &&& g@.terminals.to_set() == terminals_of(rules_view(rules@))
            }),
    {
        match origin {
            Letter::NonTerminal(_) => (),
            _ => {
                proof {
                    reveal_strlit("only non terminal can be origin");
                }
                return Err(String::from_str("only non terminal can be origin"));
            },
        };
        let ghost rs = rules_view(rules@);
        let mut h1: Vec<Letter> = Vec::new();
        let mut h2: Vec<Letter> = Vec::new();
        for k in 0..rules.len()
            invariant
                rs == rules_view(rules@),
                seq_view(h1@).no_duplicates(),
                seq_view(h2@).no_duplicates(),
                seq_view(h1@).to_set() == lefts_of(rs.take(k as int)),
                seq_view(h2@).to_set() == terminals_of(rs.take(k as int)),
        {
            let ghost r = rs[k as int];
            assert(rs.take(k + 1).drop_last() =~= rs.take(k as int));
            let ghost old1 = seq_view(h1@);
            if !contains(&h1, &rules[k].left) {
                h1.push(rules[k].left.clone());
                assert(seq_view(h1@) =~= old1.push(r.left));
            }
            assert(seq_view(h1@).to_set() =~= lefts_of(rs.take(k + 1))) by {
                assert forall|x: SpecLetter| lefts_of(rs.take(k + 1)).contains(x) implies seq_view(h1@).to_set().contains(x) by {
                    let j = choose|j: int| 0 <= j < rs.take(k + 1).len() && (#[trigger] rs.take(k + 1)[j]).left == x;
                    if j < k {
                        assert(rs.take(k as int)[j] == rs.take(k + 1)[j]);
                        assert(lefts_of(rs.take(k as int)).contains(x));
                        assert(old1.to_set().contains(x));
                        let m = choose|m: int| 0 <= m < old1.len() && old1[m] == x;
                        assert(seq_view(h1@)[m] == old1[m]);
                    } else {
                        assert(x == r.left);
                        if old1.contains(r.left) {
                            let m = choose|m: int| 0 <= m < old1.len() && old1[m] == x;
                            assert(seq_view(h1@)[m] == old1[m]);
                        } else {
                            assert(seq_view(h1@)[seq_view(h1@).len() - 1] == x);
                        }
                    }
                }
                assert forall|x: SpecLetter| seq_view(h1@).to_set().contains(x) implies lefts_of(rs.take(k + 1)).contains(x) by {
                    let m = choose|m: int| 0 <= m < seq_view(h1@).len() && seq_view(h1@)[m] == x;
                    if m < old1.len() {
                        assert(old1[m] == x);
                        assert(old1.to_set().contains(x));
                        let j = choose|j: int| 0 <= j < rs.take(k as int).len() && (#[trigger] rs.take(k as int)[j]).left == x;
                        assert(rs.take(k + 1)[j] == rs.take(k as int)[j]);
                    } else {
                        assert(rs.take(k + 1)[k as int].left == x);
                    }
                }
            }
            let right = &rules[k].right;
            assert(rs[k as int] == rules@[k as int]@);
            for i in 0..right.len()
                invariant
                    rs == rules_view(rules@),
                    r == rs[k as int],
                    r.right == seq_view(right@),
                    *right == rules@[k as int].right,
                    seq_view(h2@).no_duplicates(),
                    seq_view(h2@).to_set() == terminals_of(rs.take(k as int)).union(
                        Set::new(|x: SpecLetter| x is Terminal && exists|j: int| 0 <= j < i && r.right[j] == x),
                    ),
            {
                let ghost old2 = seq_view(h2@);
                assert(right@[i as int]@ == r.right[i as int]);
                if right[i].is_terminal() {
                    if !contains(&h2, &right[i]) {
                        h2.push(right[i].clone());
                        assert(seq_view(h2@) =~= old2.push(r.right[i as int]));
                    }
                }
                assert(seq_view(h2@).to_set() =~= terminals_of(rs.take(k as int)).union(
                    Set::new(|x: SpecLetter| x is Terminal && exists|j: int| 0 <= j < i + 1 && r.right[j] == x),
                )) by {
                    let news = Set::new(|x: SpecLetter| x is Terminal && exists|j: int| 0 <= j < i + 1 && r.right[j] == x);
                    let olds = Set::new(|x: SpecLetter| x is Terminal && exists|j: int| 0 <= j < i && r.right[j] == x);
                    assert forall|x: SpecLetter| terminals_of(rs.take(k as int)).union(news).contains(x) implies seq_view(h2@).to_set().contains(x) by {
                        if terminals_of(rs.take(k as int)).union(olds).contains(x) {
                            assert(old2.to_set().contains(x));
                            let m = choose|m: int| 0 <= m < old2.len() && old2[m] == x;
                            assert(seq_view(h2@)[m] == old2[m]);
                        } else {
                            assert(x == r.right[i as int]);
                            if old2.contains(x) {
                                let m = choose|m: int| 0 <= m < old2.len() && old2[m] == x;
                                assert(seq_view(h2@)[m] == old2[m]);
                            } else {
                                assert(seq_view(h2@)[seq_view(h2@).len() - 1] == x);
                            }
                        }
                    }
                    assert forall|x: SpecLetter| seq_view(h2@).to_set().contains(x) implies terminals_of(rs.take(k as int)).union(news).contains(x) by {
                        let m = choose|m: int| 0 <= m < seq_view(h2@).len() && seq_view(h2@)[m] == x;
                        if m < old2.len() {
                            assert(old2[m] == x);
                            assert(old2.to_set().contains(x));
                            if olds.contains(x) {
                                let j = choose|j: int| 0 <= j < i && r.right[j] == x;
                                assert(news.contains(x));
                            }
                        } else {
                            assert(r.right[i as int] == x);
                            assert(news.contains(x));
                        }
                    }
                }
            }
            assert(seq_view(h2@).to_set() =~= terminals_of(rs.take(k + 1))) by {
                let rt = Set::new(|x: SpecLetter| x is Terminal && exists|j: int| 0 <= j < r.right.len() && r.right[j] == x);
                assert forall|x: SpecLetter| terminals_of(rs.take(k as int)).union(rt).contains(x) implies terminals_of(rs.take(k + 1)).contains(x) by {
                    if terminals_of(rs.take(k as int)).contains(x) {
                        let (k2, i2) = choose|k2: int, i2: int| 0 <= k2 < rs.take(k as int).len() && 0 <= i2 < rs.take(k as int)[k2].right.len() && (#[trigger] rs.take(k as int)[k2].right[i2]) == x;
                        assert(rs.take(k + 1)[k2] == rs.take(k as int)[k2]);
                        assert(rs.take(k + 1)[k2].right[i2] == x);
                    } else {
                        let j = choose|j: int| 0 <= j < r.right.len() && r.right[j] == x;
                        assert(rs.take(k + 1)[k as int].right[j] == x);
                    }
                }
                assert forall|x: SpecLetter| terminals_of(rs.take(k + 1)).contains(x) implies terminals_of(rs.take(k as int)).union(rt).contains(x) by {
                    let (k2, i2) = choose|k2: int, i2: int| 0 <= k2 < rs.take(k + 1).len() && 0 <= i2 < rs.take(k + 1)[k2].right.len() && (#[trigger] rs.take(k + 1)[k2].right[i2]) == x;
                    if k2 < k {
                        assert(rs.take(k as int)[k2] == rs.take(k + 1)[k2]);
                        assert(rs.take(k as int)[k2].right[i2] == x);
                    } else {
                        assert(rt.contains(x));
                    }
                }
                assert(terminals_of(rs.take(k as int)).union(rt) =~= terminals_of(rs.take(k + 1)));
            }
        }
        assert(rs.take(rules@.len() as int) =~= rs);
        let ans = Grammar { rules, origin, terminals: h2, non_terminals: h1 };
        Ok(ans)
    }

    pub fn set_origin(&mut self, origin: Letter)
        ensures
            final(self)@ == (SpecGrammar { origin: origin@, ..old(self)@ }),
    {
        self.origin = origin;
    }

    /// Adds a new start symbol `S_EX` with the production `S_EX -> {S}`.
    pub fn expand(&mut self)
        ensures
            final(self)@.origin == SpecLetter::NonTerminal(expanded_name(old(self)@.origin)),
            final(self)@.non_terminals == old(self)@.non_terminals.push(final(self)@.origin),
            final(self)@.terminals == old(self)@.terminals,
            final(self)@.rules == old(self)@.rules.push(
                SpecRule {
                    left: final(self)@.origin,
                    right: spec_parse_right(seq!['{'] + spec_letter_str(old(self)@.origin) + seq!['}']),
                },
            ),
    {
        proof {
            reveal_strlit("_EX");
            reveal_strlit("{");
            reveal_strlit("}");
        }
        let mut name = String::from_str(self.origin.get_str());
        name.append("_EX");
        let mut body = String::from_str("{");
        body.append(self.origin.get_str());
        body.append("}");
        assert(name@ == expanded_name(old(self)@.origin));
        assert(body@ == seq!['{'] + spec_letter_str(old(self)@.origin) + seq!['}']);
        let letter = Letter::NonTerminal(name);
        let ghost old_nts = seq_view(self.non_terminals@);
        let ghost old_rules = rules_view(self.rules@);
        self.non_terminals.push(letter.clone());
        assert(seq_view(self.non_terminals@) =~= old_nts.push(letter@));
        let rule = Rule::from_single(letter.get_str(), body.as_str());
        self.rules.push(rule);
        assert(rules_view(self.rules@) =~= old_rules.push(rule@));
        self.origin = letter;
    }
}

/// The productions, each on a line of its own after four spaces.
pub open spec fn rule_lines(r: Seq<SpecRule>) -> Seq<char>
    decreases r.len(),
{
    if r.len() == 0 {
        seq![]
    } else {
        rule_lines(r.drop_last()) + seq![' ', ' ', ' ', ' '] + spec_rule_display(r.last()) + seq!['\n']
    }
}

/// Symbols printed by `show`, each followed by `, `.
pub open spec fn comma_list(s: Seq<SpecLetter>, show: spec_fn(SpecLetter) -> Seq<char>) -> Seq<char>
    decreases s.len(),
{
    if s.len() == 0 {
        seq![]
    } else {
        comma_list(s.drop_last(), show) + show(s.last()) + seq![',', ' ']
    }
}

/// The printed form of a grammar: its productions, its start symbol, its terminals
/// (printed as symbols) and its non terminals (by name).
pub open spec fn grammar_display(g: SpecGrammar) -> Seq<char> {
    "rules:\n"@ + rule_lines(g.rules) + "origin:\n    "@ + spec_letter_str(g.origin) + "\nterminals:\n    "@
        + comma_list(g.terminals, |l: SpecLetter| spec_letter_display(l)) + "\nnon terminals:\n    "@
        + comma_list(g.non_terminals, |l: SpecLetter| spec_letter_str(l))
}

impl Grammar {
    /// The printed form of the grammar.
    pub fn to_string(&self) -> (res: String)
        ensures
            res@ == grammar_display(self@),
    {
        let mut s = String::from_str("rules:\n");
        let ghost mut head = s@;
        for i in 0..self.rules.len()
            invariant
                s@ == head + rule_lines(rules_view(self.rules@).take(i as int)),
        {
            proof {
                reveal_strlit("    ");
                reveal_strlit("\n");
            }
            s.append("    ");
            let t = self.rules[i].to_string();
            s.append(t.as_str());
            s.append("\n");
            assert(rules_view(self.rules@).take(i + 1).drop_last() =~= rules_view(self.rules@).take(i as int));
        }
        assert(rules_view(self.rules@).take(self.rules@.len() as int) =~= rules_view(self.rules@));
        s.append("origin:\n    ");
        s.append(self.origin.get_str());
        s.append("\nterminals:\n    ");
        proof {
            head = s@;
        }
        let ghost show_t = |l: SpecLetter| spec_letter_display(l);
        for i in 0..self.terminals.len()
            invariant
                show_t == (|l: SpecLetter| spec_letter_display(l)),
                s@ == head + comma_list(seq_view(self.terminals@).take(i as int), show_t),
        {
            proof {
                reveal_strlit(", ");
            }
            let t = self.terminals[i].to_string();
            s.append(t.as_str());
            s.append(", ");
            assert(seq_view(self.terminals@).take(i + 1).drop_last() =~= seq_view(self.terminals@).take(i as int));
        }
        assert(seq_view(self.terminals@).take(self.terminals@.len() as int) =~= seq_view(self.terminals@));
        s.append("\nnon terminals:\n    ");
        proof {
            head = s@;
        }
        let ghost show_n = |l: SpecLetter| spec_letter_str(l);
        for i in 0..self.non_terminals.len()
            invariant
                show_n == (|l: SpecLetter| spec_letter_str(l)),
                s@ == head + comma_list(seq_view(self.non_terminals@).take(i as int), show_n),
        {
            proof {
                reveal_strlit(", ");
            }
            s.append(self.non_terminals[i].get_str());
            s.append(", ");
            assert(seq_view(self.non_terminals@).take(i + 1).drop_last() =~= seq_view(self.non_terminals@).take(i as int));
        }
        assert(seq_view(self.non_terminals@).take(self.non_terminals@.len() as int) =~= seq_view(self.non_terminals@));
        s
    }
}

} // verus!

pub mod graph;

use vstd::prelude::*;
use crate::grammar::letter::{Letter, SpecLetter, seq_view, contains, index_of};
use crate::grammar::rule::SpecRule;
use crate::grammar::sentence::Sentence;
use crate::grammar::{Grammar, SpecGrammar, spec_empties, declared_symbol, wf_rule};
use crate::utils::{reachable, closed_under, lemma_reach_start, lemma_reach_step, lemma_distinct_within_len};
use graph::{Graph, lemma_prepend};

verus! {

/// The nodes of the FIRST/FOLLOW graph: the FIRST set of a non terminal, the FOLLOW
/// set of a non terminal, and a single symbol (a terminal or the end marker).
pub enum FFNode {
    First(SpecLetter),
    Follow(SpecLetter),
    Sym(SpecLetter),
}

/// The symbols that can begin `s` directly: the leading non terminals that derive
/// the empty word, then the first symbol after them if it is a terminal or non terminal.
pub open spec fn first_run(s: Seq<SpecLetter>, e: Set<SpecLetter>) -> Seq<SpecLetter>
    decreases s.len(),
{
    if s.len() == 0 {
        seq![]
    } else if s[0] is Terminal {
        seq![s[0]]
    } else if s[0] is NonTerminal {
        if e.contains(s[0]) {
            seq![s[0]] + first_run(s.drop_first(), e)
        } else {
            seq![s[0]]
        }
    } else {
        seq![]
    }
}

/// Every symbol of `s` is a non terminal that derives the empty word.
pub open spec fn all_nullable(s: Seq<SpecLetter>, e: Set<SpecLetter>) -> bool {
    forall|m: int| 0 <= m < s.len() ==> (#[trigger] s[m]) is NonTerminal && e.contains(s[m])
}

/// The symbol a node is about.
pub open spec fn node_letter(v: FFNode) -> SpecLetter {
    match v {
        FFNode::First(x) => x,
        FFNode::Follow(x) => x,
        FFNode::Sym(x) => x,
    }
}

/// `v` stands for `x` seen at the front of a string: FIRST of a non terminal, or a terminal.
pub open spec fn is_target(x: SpecLetter, v: FFNode) -> bool {
    ||| (x is NonTerminal && v == FFNode::First(x))
    ||| (x is Terminal && v == FFNode::Sym(x))
}

/// The edges a production contributes: FIRST(A) takes in what can begin the right side;
/// FOLLOW(B) takes in what can begin the rest after B, and FOLLOW(A) when that rest
/// derives the empty word.
pub open spec fn rule_edge(r: SpecRule, e: Set<SpecLetter>, u: FFNode, v: FFNode) -> bool {
    &&& r.right != seq![SpecLetter::Empty]
    &&& {
        ||| (u == FFNode::First(r.left) && first_run(r.right, e).contains(node_letter(v)) && is_target(node_letter(v), v))
        ||| exists|i: int|
            0 <= i < r.right.len() && (#[trigger] r.right[i]) is NonTerminal && u == FFNode::Follow(r.right[i]) && (
            (first_run(r.right.skip(i + 1), e).contains(node_letter(v)) && is_target(node_letter(v), v))
            || (all_nullable(r.right.skip(i + 1), e) && v == FFNode::Follow(r.left)))
    }
}

/// The edges of the FIRST/FOLLOW graph of a grammar; FOLLOW of the start symbol also holds `#`.
pub open spec fn ff_edge(g: SpecGrammar, u: FFNode, v: FFNode) -> bool {
    ||| (u == FFNode::Follow(g.origin) && v == FFNode::Sym(SpecLetter::EndSign))
    ||| exists|k: int| 0 <= k < g.rules.len() && rule_edge(#[trigger] g.rules[k], spec_empties(g.rules), u, v)
}

pub open spec fn ff_rel(g: SpecGrammar) -> spec_fn(FFNode, FFNode) -> bool {
    |u: FFNode, v: FFNode| ff_edge(g, u, v)
}

/// FIRST(a): the symbols reachable from FIRST(a), and the empty word when `a` derives it.
pub open spec fn spec_first_set(g: SpecGrammar, a: SpecLetter) -> Set<SpecLetter> {
    let base = Set::new(|t: SpecLetter| reachable(ff_rel(g), FFNode::First(a), FFNode::Sym(t)));
    if spec_empties(g.rules).contains(a) {
        base.insert(SpecLetter::Empty)
    } else {
        base
    }
}

/// FOLLOW(b): the symbols reachable from FOLLOW(b).
pub open spec fn spec_follow_set(g: SpecGrammar, b: SpecLetter) -> Set<SpecLetter> {
    Set::new(|t: SpecLetter| reachable(ff_rel(g), FFNode::Follow(b), FFNode::Sym(t)))
}

/// The node with number `id`: 0 is `#`, then the terminals, then FIRST and FOLLOW of
/// each non terminal.
pub open spec fn node_of(g: SpecGrammar, id: int) -> FFNode {
    let t = g.terminals.len() as int;
    let n = g.non_terminals.len() as int;
    if id == 0 {
        FFNode::Sym(SpecLetter::EndSign)
    } else if id <= t {
        FFNode::Sym(g.terminals[id - 1])
    } else if id <= t + n {
        FFNode::First(g.non_terminals[id - t - 1])
    } else {
        FFNode::Follow(g.non_terminals[id - t - n - 1])
    }
}

pub open spec fn node_count(g: SpecGrammar) -> int {
    (2 * g.non_terminals.len() + g.terminals.len() + 1) as int
}

/// A table from symbols to sets of symbols, one entry per symbol.
pub open spec fn keys_of(m: Seq<(Letter, Vec<Letter>)>) -> Seq<SpecLetter> {
    m.map_values(|p: (Letter, Vec<Letter>)| p.0@)
}

pub open spec fn has_entry(m: Seq<(Letter, Vec<Letter>)>, x: SpecLetter) -> bool {
    exists|i: int| 0 <= i < m.len() && (#[trigger] m[i]).0@ == x
}

/// The set stored for `x`.
pub open spec fn entry_set(m: Seq<(Letter, Vec<Letter>)>, x: SpecLetter) -> Set<SpecLetter> {
    seq_view(m[choose|i: int| 0 <= i < m.len() && (#[trigger] m[i]).0@ == x].1@).to_set()
}

/// The FIRST and FOLLOW sets of the non terminals of a grammar.
pub struct FirstFollowSet {
    pub first_set: Vec<(Letter, Vec<Letter>)>,
    pub follow_set: Vec<(Letter, Vec<Letter>)>,
}

impl FirstFollowSet {
    /// Each table has one entry per key, and stores each symbol of a set once.
    pub open spec fn wf(&self) -> bool {
        &&& keys_of(self.first_set@).no_duplicates()
        &&& keys_of(self.follow_set@).no_duplicates()
        &&& forall|i: int| 0 <= i < self.first_set@.len() ==> seq_view((#[trigger] self.first_set@[i]).1@).no_duplicates()
        &&& forall|i: int| 0 <= i < self.follow_set@.len() ==> seq_view((#[trigger] self.follow_set@[i]).1@).no_duplicates()
    }

    /// The tables are FIRST and FOLLOW of `g`, one entry per non terminal in order.
    pub open spec fn of_grammar(&self, g: SpecGrammar) -> bool {
        &&& self.wf()
        &&& keys_of(self.first_set@) == g.non_terminals
        &&& keys_of(self.follow_set@) == g.non_terminals
        &&& forall|i: int| 0 <= i < g.non_terminals.len() ==> seq_view((#[trigger] self.first_set@[i]).1@).to_set() == spec_first_set(g, g.non_terminals[i])
        &&& forall|i: int| 0 <= i < g.non_terminals.len() ==> seq_view((#[trigger] self.follow_set@[i]).1@).to_set() == spec_follow_set(g, g.non_terminals[i])
    }
}

/// The symbols that can begin `s`, by the FIRST sets stored in `m`: the empty word
/// when all of `s` can vanish.
pub open spec fn sentence_first(m: Seq<(Letter, Vec<Letter>)>, s: Seq<SpecLetter>) -> Set<SpecLetter>
    decreases s.len(),
{
    if s.len() == 0 {
        set![SpecLetter::Empty]
    } else if s[0] is NonTerminal {
        let f = entry_set(m, s[0]);
        if f.contains(SpecLetter::Empty) {
            f.remove(SpecLetter::Empty).union(sentence_first(m, s.drop_first()))
        } else {
            f
        }
    } else {
        set![s[0]]
    }
}

/// FIRST of a string: `{.}` for the empty production, otherwise `sentence_first`.
pub open spec fn spec_sentence_first(m: Seq<(Letter, Vec<Letter>)>, s: Seq<SpecLetter>) -> Set<SpecLetter> {
    if s.len() == 1 && s[0] is Empty {
        set![SpecLetter::Empty]
    } else {
        sentence_first(m, s)
    }
}

/// The leading symbols of `right[start..]` as `first_run` gives them.
fn first_run_from(right: &Vec<Letter>, start: usize, empties: &Vec<Letter>) -> (res: Vec<Letter>)
    requires
        start <= right@.len(),
    ensures
        seq_view(res@) == first_run(seq_view(right@).skip(start as int), seq_view(empties@).to_set()),
    decreases right@.len() - start,
{
    let ghost s = seq_view(right@).skip(start as int);
    let ghost e = seq_view(empties@).to_set();
    if start == right.len() {
        assert(s.len() == 0);
        return Vec::new();
    }
    assert(s[0] == right@[start as int]@);
    let x = &right[start];
    if x.is_terminal() {
        let mut v = Vec::new();
        v.push(x.clone());
        assert(seq_view(v@) =~= seq![s[0]]);
        v
    } else if x.is_non_terminal() {
        if contains(empties, x) {
            let mut rest = first_run_from(right, start + 1, empties);
            assert(s.drop_first() =~= seq_view(right@).skip(start + 1));
            let ghost r = seq_view(rest@);
            rest.insert(0, x.clone());
            assert(seq_view(rest@) =~= seq![s[0]] + r);
            rest
        } else {
            let mut v = Vec::new();
            v.push(x.clone());
            assert(seq_view(v@) =~= seq![s[0]]);
            v
        }
    } else {
        Vec::new()
    }
}

/// Whether every symbol of `right[start..]` is a non terminal that derives the empty word.
fn all_nullable_from(right: &Vec<Letter>, start: usize, empties: &Vec<Letter>) -> (res: bool)
    requires
        start <= right@.len(),
    ensures
        res == all_nullable(seq_view(right@).skip(start as int), seq_view(empties@).to_set()),
{
    let ghost s = seq_view(right@).skip(start as int);
    let ghost e = seq_view(empties@).to_set();
    let mut i = start;
    while i < right.len()
        invariant
            start <= i <= right@.len(),
            s == seq_view(right@).skip(start as int),
            e == seq_view(empties@).to_set(),
            forall|m: int| 0 <= m < i - start ==> (#[trigger] s[m]) is NonTerminal && e.contains(s[m]),
        decreases right@.len() - i,
    {
        assert(s[i - start] == right@[i as int]@);
        if !right[i].is_non_terminal() || !contains(empties, &right[i]) {
            return false;
        }
        i = i + 1;
    }
    true
}

pub proof fn lemma_first_run_kinds(s: Seq<SpecLetter>, e: Set<SpecLetter>)
    ensures
        forall|m: int| 0 <= m < first_run(s, e).len() ==> {
            ||| (#[trigger] first_run(s, e)[m]) is Terminal
            ||| first_run(s, e)[m] is NonTerminal
        },
        forall|x: SpecLetter| #[trigger] first_run(s, e).contains(x) ==> s.contains(x),
    decreases s.len(),
{
    if s.len() > 0 && s[0] is NonTerminal && e.contains(s[0]) {
        lemma_first_run_kinds(s.drop_first(), e);
        assert forall|x: SpecLetter| first_run(s, e).contains(x) implies s.contains(x) by {
            let m = choose|m: int| 0 <= m < first_run(s, e).len() && first_run(s, e)[m] == x;
            if m > 0 {
                assert(first_run(s.drop_first(), e)[m - 1] == x);
                assert(first_run(s.drop_first(), e).contains(x));
                assert(s.drop_first().contains(x));
                let j = choose|j: int| 0 <= j < s.drop_first().len() && s.drop_first()[j] == x;
                assert(s[j + 1] == x);
            } else {
                assert(s[0] == x);
            }
        }
    } else if s.len() > 0 {
        assert forall|x: SpecLetter| first_run(s, e).contains(x) implies s.contains(x) by {
            assert(s[0] == x);
        }
    }
}

/// Node numbers are one to one on the nodes of a well-formed grammar.
pub proof fn lemma_node_of_injective(g: SpecGrammar, a: int, b: int)
    requires
        g.wf(),
        0 <= a < node_count(g),
        0 <= b < node_count(g),
        node_of(g, a) == node_of(g, b),
    ensures
        a == b,
{
    let t = g.terminals.len() as int;
    let n = g.non_terminals.len() as int;
    if a == 0 || b == 0 {
        if a != b {
            if a != 0 {
                assert(g.terminals[a - 1] is Terminal);
            } else {
                assert(g.terminals[b - 1] is Terminal);
            }
        }
    } else if a <= t && b <= t {
        assert(g.terminals[a - 1] == g.terminals[b - 1]);
    } else if a > t && a <= t + n && b > t && b <= t + n {
        assert(g.non_terminals[a - t - 1] == g.non_terminals[b - t - 1]);
    } else if a > t + n && b > t + n {
        assert(g.non_terminals[a - t - n - 1] == g.non_terminals[b - t - n - 1]);
    } else if a <= t && b > t + n {
    } else if a <= t {
        assert(g.terminals[a - 1] is Terminal);
        assert(g.non_terminals[b - t - 1] is NonTerminal);
    } else if b <= t {
        assert(g.terminals[b - 1] is Terminal);
        assert(g.non_terminals[a - t - 1] is NonTerminal);
    }
}

/// A symbol that can begin a string of declared symbols is declared.
pub proof fn lemma_first_run_declared(g: SpecGrammar, s: Seq<SpecLetter>, e: Set<SpecLetter>, x: SpecLetter)
    requires
        forall|m: int| 0 <= m < s.len() ==> declared_symbol(g, #[trigger] s[m]),
        first_run(s, e).contains(x),
    ensures
        declared_symbol(g, x),
{
    lemma_first_run_kinds(s, e);
    let j = choose|j: int| 0 <= j < s.len() && s[j] == x;
    assert(declared_symbol(g, s[j]));
}

/// A declared symbol, seen at the front of a string, has a node number.
pub proof fn lemma_target_valid(g: SpecGrammar, x: SpecLetter, v: FFNode)
    requires
        declared_symbol(g, x),
        is_target(x, v),
    ensures
        exists|y: int| 0 <= y < node_count(g) && node_of(g, y) == v,
{
    let t = g.terminals.len() as int;
    if x is Terminal {
        let m = choose|m: int| 0 <= m < g.terminals.len() && g.terminals[m] == x;
        assert(node_of(g, m + 1) == v);
    } else {
        let m = choose|m: int| 0 <= m < g.non_terminals.len() && g.non_terminals[m] == x;
        assert(node_of(g, t + 1 + m) == v);
    }
}

/// Every node an edge leads to has a number.
pub proof fn lemma_edge_target_valid(g: SpecGrammar, u: FFNode, v: FFNode)
    requires
        g.wf(),
        ff_edge(g, u, v),
    ensures
        exists|y: int| 0 <= y < node_count(g) && node_of(g, y) == v,
{
    let t = g.terminals.len() as int;
    let n = g.non_terminals.len() as int;
    let e = spec_empties(g.rules);
    if u == FFNode::Follow(g.origin) && v == FFNode::Sym(SpecLetter::EndSign) {
        assert(node_of(g, 0) == v);
    } else {
        let k = choose|k: int| 0 <= k < g.rules.len() && rule_edge(#[trigger] g.rules[k], e, u, v);
        let r = g.rules[k];
        assert(wf_rule(g, r));
        let x = node_letter(v);
        assert(forall|m: int| 0 <= m < r.right.len() ==> declared_symbol(g, #[trigger] r.right[m]));
        if u == FFNode::First(r.left) && first_run(r.right, e).contains(x) && is_target(x, v) {
            lemma_first_run_declared(g, r.right, e, x);
            lemma_target_valid(g, x, v);
        } else {
            let i = choose|i: int|
                0 <= i < r.right.len() && (#[trigger] r.right[i]) is NonTerminal && u == FFNode::Follow(r.right[i]) && (
                (first_run(r.right.skip(i + 1), e).contains(x) && is_target(x, v))
                || (all_nullable(r.right.skip(i + 1), e) && v == FFNode::Follow(r.left)));
            if first_run(r.right.skip(i + 1), e).contains(x) && is_target(x, v) {
                assert forall|m: int| 0 <= m < r.right.skip(i + 1).len() implies declared_symbol(g, #[trigger] r.right.skip(i + 1)[m]) by {
                    assert(r.right.skip(i + 1)[m] == r.right[i + 1 + m]);
                }
                lemma_first_run_declared(g, r.right.skip(i + 1), e, x);
                lemma_target_valid(g, x, v);
            } else {
                let m = choose|m: int| 0 <= m < g.non_terminals.len() && g.non_terminals[m] == r.left;
                assert(node_of(g, t + n + 1 + m) == v);
            }
        }
    }
}

/// The position of `x` in `s`.
pub open spec fn pos_of(s: Seq<SpecLetter>, x: SpecLetter) -> int {
    choose|i: int| 0 <= i < s.len() && s[i] == x
}

/// The node number of a terminal.
pub open spec fn sym_id(g: SpecGrammar, x: SpecLetter) -> int {
    1 + pos_of(g.terminals, x)
}

/// The node number of FIRST of a non terminal.
pub open spec fn first_id(g: SpecGrammar, x: SpecLetter) -> int {
    g.terminals.len() + 1 + pos_of(g.non_terminals, x)
}

/// The node number of FOLLOW of a non terminal.
pub open spec fn follow_id(g: SpecGrammar, x: SpecLetter) -> int {
    g.terminals.len() + g.non_terminals.len() + 1 + pos_of(g.non_terminals, x)
}

/// The node number of a symbol seen at the front of a string.
pub open spec fn target_id(g: SpecGrammar, x: SpecLetter) -> int {
    if x is NonTerminal {
        first_id(g, x)
    } else {
        sym_id(g, x)
    }
}

/// The edges of a production are all present in the adjacency lists `adj`.
pub open spec fn rule_done(g: SpecGrammar, adj: Seq<Seq<int>>, r: SpecRule) -> bool {
    let e = spec_empties(g.rules);
    r.right != seq![SpecLetter::Empty] ==> {
        &&& forall|m: int| 0 <= m < first_run(r.right, e).len() ==> adj[first_id(g, r.left)].contains(
            target_id(g, #[trigger] first_run(r.right, e)[m]),
        )
        &&& forall|i: int| 0 <= i < r.right.len() && (#[trigger] r.right[i]) is NonTerminal ==> follow_done(g, adj, r, i)
    }
}

/// The FOLLOW edges of position `i` of a production are all present in `adj`.
pub open spec fn follow_done(g: SpecGrammar, adj: Seq<Seq<int>>, r: SpecRule, i: int) -> bool {
    let e = spec_empties(g.rules);
    let rest = r.right.skip(i + 1);
    &&& forall|m: int| 0 <= m < first_run(rest, e).len() ==> adj[follow_id(g, r.right[i])].contains(
        target_id(g, #[trigger] first_run(rest, e)[m]),
    )
    &&& all_nullable(rest, e) ==> adj[follow_id(g, r.right[i])].contains(follow_id(g, r.left))
}

/// `adj2` holds every edge of `adj`.
pub open spec fn adj_grows(adj: Seq<Seq<int>>, adj2: Seq<Seq<int>>) -> bool {
    &&& adj.len() == adj2.len()
    &&& forall|x: int, y: int| 0 <= x < adj.len() && #[trigger] adj[x].contains(y) ==> adj2[x].contains(y)
}

/// The adjacency lists hold only edges of the FIRST/FOLLOW graph, between numbered nodes.
pub open spec fn adj_sound(g: SpecGrammar, adj: Seq<Seq<int>>) -> bool {
    &&& adj.len() == node_count(g)
    &&& forall|x: int, y: int|
        0 <= x < adj.len() && #[trigger] adj[x].contains(y) ==> 0 <= y < node_count(g) && ff_edge(
            g,
            node_of(g, x),
            node_of(g, y),
        )
}

/// The adjacency lists hold every edge of the FIRST/FOLLOW graph.
pub open spec fn adj_complete(g: SpecGrammar, adj: Seq<Seq<int>>) -> bool {
    forall|x: int, y: int|
        0 <= x < node_count(g) && 0 <= y < node_count(g) && #[trigger] ff_edge(g, node_of(g, x), node_of(g, y)) ==> adj[x].contains(y)
}

pub proof fn lemma_ids(g: SpecGrammar, x: SpecLetter)
    requires
        g.wf(),
    ensures
        x is Terminal && g.terminals.contains(x) ==> 0 < sym_id(g, x) <= g.terminals.len() && node_of(g, sym_id(g, x)) == FFNode::Sym(x),
        x is NonTerminal && g.non_terminals.contains(x) ==> {
            &&& g.terminals.len() < first_id(g, x) <= g.terminals.len() + g.non_terminals.len()
            &&& node_of(g, first_id(g, x)) == FFNode::First(x)
            &&& g.terminals.len() + g.non_terminals.len() < follow_id(g, x) < node_count(g)
            &&& node_of(g, follow_id(g, x)) == FFNode::Follow(x)
        },
        declared_symbol(g, x) ==> 0 <= target_id(g, x) < node_count(g) && is_target(x, node_of(g, target_id(g, x))),
{
}

pub proof fn lemma_rule_done_grows(g: SpecGrammar, adj: Seq<Seq<int>>, adj2: Seq<Seq<int>>, r: SpecRule)
    requires
        g.wf(),
        wf_rule(g, r),
        adj.len() == node_count(g),
        adj_grows(adj, adj2),
        rule_done(g, adj, r),
    ensures
        rule_done(g, adj2, r),
{
    let e = spec_empties(g.rules);
    if r.right != seq![SpecLetter::Empty] {
        lemma_ids(g, r.left);
        assert forall|m: int| 0 <= m < first_run(r.right, e).len() implies adj2[first_id(g, r.left)].contains(
            target_id(g, #[trigger] first_run(r.right, e)[m]),
        ) by {
            assert(adj[first_id(g, r.left)].contains(target_id(g, first_run(r.right, e)[m])));
        }
        assert forall|i: int| 0 <= i < r.right.len() && (#[trigger] r.right[i]) is NonTerminal implies follow_done(g, adj2, r, i) by {
            assert(follow_done(g, adj, r, i));
            assert(declared_symbol(g, r.right[i]));
            lemma_ids(g, r.right[i]);
            let rest = r.right.skip(i + 1);
            assert forall|m: int| 0 <= m < first_run(rest, e).len() implies adj2[follow_id(g, r.right[i])].contains(
                target_id(g, #[trigger] first_run(rest, e)[m]),
            ) by {
                assert(adj[follow_id(g, r.right[i])].contains(target_id(g, first_run(rest, e)[m])));
            }
        }
    }
}

/// Once every production is done and FOLLOW of the start symbol holds `#`, the
/// adjacency lists hold every edge.
pub proof fn lemma_adj_complete(g: SpecGrammar, adj: Seq<Seq<int>>)
    requires
        g.wf(),
        adj.len() == node_count(g),
        forall|k: int| 0 <= k < g.rules.len() ==> rule_done(g, adj, #[trigger] g.rules[k]),
        adj[follow_id(g, g.origin)].contains(0),
    ensures
        adj_complete(g, adj),
{
    let e = spec_empties(g.rules);
    lemma_ids(g, g.origin);
    assert forall|x: int, y: int|
        0 <= x < node_count(g) && 0 <= y < node_count(g) && #[trigger] ff_edge(g, node_of(g, x), node_of(g, y)) implies adj[x].contains(y) by {
        let u = node_of(g, x);
        let v = node_of(g, y);
        if u == FFNode::Follow(g.origin) && v == FFNode::Sym(SpecLetter::EndSign) {
            lemma_node_of_injective(g, x, follow_id(g, g.origin));
            lemma_node_of_injective(g, y, 0);
        } else {
            let k = choose|k: int| 0 <= k < g.rules.len() && rule_edge(#[trigger] g.rules[k], e, u, v);
            let r = g.rules[k];
            assert(wf_rule(g, r));
            assert(rule_done(g, adj, r));
            lemma_ids(g, r.left);
            let z = node_letter(v);
            assert(forall|m: int| 0 <= m < r.right.len() ==> declared_symbol(g, #[trigger] r.right[m]));
            if u == FFNode::First(r.left) && first_run(r.right, e).contains(z) && is_target(z, v) {
                lemma_node_of_injective(g, x, first_id(g, r.left));
                lemma_first_run_declared(g, r.right, e, z);
                lemma_ids(g, z);
                lemma_node_of_injective(g, y, target_id(g, z));
                let m = choose|m: int| 0 <= m < first_run(r.right, e).len() && first_run(r.right, e)[m] == z;
                assert(adj[first_id(g, r.left)].contains(target_id(g, first_run(r.right, e)[m])));
            } else {
                let i = choose|i: int|
                    0 <= i < r.right.len() && (#[trigger] r.right[i]) is NonTerminal && u == FFNode::Follow(r.right[i]) && (
                    (first_run(r.right.skip(i + 1), e).contains(z) && is_target(z, v))
                    || (all_nullable(r.right.skip(i + 1), e) && v == FFNode::Follow(r.left)));
                let rest = r.right.skip(i + 1);
                assert(follow_done(g, adj, r, i));
                lemma_ids(g, r.right[i]);
                lemma_node_of_injective(g, x, follow_id(g, r.right[i]));
                if first_run(rest, e).contains(z) && is_target(z, v) {
                    assert forall|m: int| 0 <= m < rest.len() implies declared_symbol(g, #[trigger] rest[m]) by {
                        assert(rest[m] == r.right[i + 1 + m]);
                    }
                    lemma_first_run_declared(g, rest, e, z);
                    lemma_ids(g, z);
                    lemma_node_of_injective(g, y, target_id(g, z));
                    let m = choose|m: int| 0 <= m < first_run(rest, e).len() && first_run(rest, e)[m] == z;
                    assert(adj[follow_id(g, r.right[i])].contains(target_id(g, first_run(rest, e)[m])));
                } else {
                    lemma_node_of_injective(g, y, follow_id(g, r.left));
                }
            }
        }
    }
}

pub proof fn lemma_pos_unique(s: Seq<SpecLetter>, x: SpecLetter, i: int)
    requires
        s.no_duplicates(),
        0 <= i < s.len(),
        s[i] == x,
    ensures
        pos_of(s, x) == i,
{
}

pub proof fn lemma_first_run_len(s: Seq<SpecLetter>, e: Set<SpecLetter>)
    ensures
        first_run(s, e).len() <= s.len(),
    decreases s.len(),
{
    if s.len() > 0 {
        lemma_first_run_len(s.drop_first(), e);
    }
}

/// An upper bound on the number of edges the productions contribute.
pub open spec fn edge_budget(rules: Seq<SpecRule>) -> int
    decreases rules.len(),
{
    if rules.len() == 0 {
        0
    } else {
        edge_budget(rules.drop_last()) + rules.last().right.len() * (rules.last().right.len() + 1)
    }
}

pub proof fn lemma_edge_budget_mono(rules: Seq<SpecRule>, k: int)
    requires
        0 <= k <= rules.len(),
    ensures
        0 <= edge_budget(rules.take(k)) <= edge_budget(rules),
    decreases rules.len(),
{
    if rules.len() > 0 {
        if k == rules.len() {
            assert(rules.take(k) =~= rules);
            lemma_edge_budget_mono(rules.drop_last(), k - 1);
            assert(rules.drop_last().take(k - 1) =~= rules.drop_last());
        } else {
            lemma_edge_budget_mono(rules.drop_last(), k);
            assert(rules.drop_last().take(k) =~= rules.take(k));
        }
        let n = rules.last().right.len();
        assert(n * (n + 1) >= 0) by (nonlinear_arith);
    }
}

pub proof fn lemma_keep_done(g: SpecGrammar, adj: Seq<Seq<int>>, adj2: Seq<Seq<int>>, k: int)
    requires
        g.wf(),
        0 <= k <= g.rules.len(),
        adj.len() == node_count(g),
        adj_grows(adj, adj2),
        forall|j: int| 0 <= j < k ==> rule_done(g, adj, #[trigger] g.rules[j]),
    ensures
        forall|j: int| 0 <= j < k ==> rule_done(g, adj2, #[trigger] g.rules[j]),
{
    assert forall|j: int| 0 <= j < k implies rule_done(g, adj2, #[trigger] g.rules[j]) by {
        assert(wf_rule(g, g.rules[j]));
        lemma_rule_done_grows(g, adj, adj2, g.rules[j]);
    }
}

/// The node number of a declared terminal.
fn exec_sym_id(g: &Grammar, x: &Letter) -> (id: usize)
    requires
        g@.wf(),
        x@ is Terminal,
        g@.terminals.contains(x@),
        node_count(g@) < i32::MAX,
    ensures
        id == sym_id(g@, x@),
{
    let i = index_of(&g.terminals, x).unwrap();
    proof {
        assert(g@.terminals[i as int] == x@);
        lemma_pos_unique(g@.terminals, x@, i as int);
    }
    i + 1
}

/// The node number of FIRST of a declared non terminal.
fn exec_first_id(g: &Grammar, x: &Letter) -> (id: usize)
    requires
        g@.wf(),
        g@.non_terminals.contains(x@),
        node_count(g@) < i32::MAX,
    ensures
        id == first_id(g@, x@),
{
    let i = index_of(&g.non_terminals, x).unwrap();
    proof {
        assert(g@.non_terminals[i as int] == x@);
        lemma_pos_unique(g@.non_terminals, x@, i as int);
    }
    g.terminals.len() + 1 + i
}

/// The node number of FOLLOW of a declared non terminal.
fn exec_follow_id(g: &Grammar, x: &Letter) -> (id: usize)
    requires
        g@.wf(),
        g@.non_terminals.contains(x@),
        node_count(g@) < i32::MAX,
    ensures
        id == follow_id(g@, x@),
{
    let i = index_of(&g.non_terminals, x).unwrap();
    proof {
        assert(g@.non_terminals[i as int] == x@);
        lemma_pos_unique(g@.non_terminals, x@, i as int);
    }
    g.terminals.len() + g.non_terminals.len() + 1 + i
}

/// The node number of a declared symbol seen at the front of a string.
fn exec_target_id(g: &Grammar, x: &Letter) -> (id: usize)
    requires
        g@.wf(),
        declared_symbol(g@, x@),
        node_count(g@) < i32::MAX,
    ensures
        id == target_id(g@, x@),
{
    if x.is_non_terminal() {
        exec_first_id(g, x)
    } else {
        exec_sym_id(g, x)
    }
}

/// Builds the FIRST/FOLLOW graph of a grammar.
fn build_graph(g: &Grammar, empties: &Vec<Letter>) -> (graph: Graph)
    requires
        g@.wf(),
        seq_view(empties@).to_set() == spec_empties(g@.rules),
        node_count(g@) + edge_budget(g@.rules) + 1 < i32::MAX,
    ensures
        graph.wf(),
        graph.head@.len() == node_count(g@),
        adj_sound(g@, graph.adj()),
        adj_complete(g@, graph.adj()),
{
    let ghost gs = g@;
    let ghost e = spec_empties(gs.rules);
    proof {
        lemma_edge_budget_mono(gs.rules, 0);
        assert(gs.rules.take(0) =~= Seq::<SpecRule>::empty());
        assert(edge_budget(gs.rules.take(0)) == 0);
    }
    let total = 2 * g.non_terminals.len() + g.terminals.len() + 1;
    let mut graph = Graph::new(total as i32);
    for k in 0..g.rules.len()
        invariant
            gs == g@,
            gs.wf(),
            e == spec_empties(gs.rules),
            seq_view(empties@).to_set() == e,
            total == node_count(gs),
            node_count(gs) + edge_budget(gs.rules) + 1 < i32::MAX,
            edge_budget(gs.rules) >= 0,
            graph.wf(),
            graph.head@.len() == total,
            adj_sound(gs, graph.adj()),
            forall|j: int| 0 <= j < k ==> rule_done(gs, graph.adj(), #[trigger] gs.rules[j]),
            graph.edges@.len() <= edge_budget(gs.rules.take(k as int)),
    {
        let rule = &g.rules[k];
        let ghost r = gs.rules[k as int];
        assert(r == rule@);
        assert(wf_rule(gs, r));
        proof {
            lemma_edge_budget_mono(gs.rules, k + 1);
            assert(gs.rules.take(k + 1).drop_last() =~= gs.rules.take(k as int));
            assert(gs.rules.take(k + 1).last() == r);
        }
        let ghost n = r.right.len() as int;
        let ghost base = graph.edges@.len() as int;
        if !rule.is_empty() {
            assert(r.right != seq![SpecLetter::Empty]);
            assert(forall|m: int| 0 <= m < r.right.len() ==> declared_symbol(gs, #[trigger] r.right[m]));
            assert(seq_view(rule.right@).skip(0) =~= r.right);
            let fr = first_run_from(&rule.right, 0, empties);
            proof {
                lemma_first_run_len(r.right, e);
                lemma_ids(gs, r.left);
            }
            let fid = exec_first_id(g, &rule.left);
            for m in 0..fr.len()
                invariant
                    gs == g@,
                    gs.wf(),
                    e == spec_empties(gs.rules),
                    total == node_count(gs),
                    node_count(gs) + edge_budget(gs.rules) + 1 < i32::MAX,
                    edge_budget(gs.rules) >= 0,
                    0 <= k < gs.rules.len(),
                    r == gs.rules[k as int],
                    r.right != seq![SpecLetter::Empty],
                    forall|m: int| 0 <= m < r.right.len() ==> declared_symbol(gs, #[trigger] r.right[m]),
                    seq_view(fr@) == first_run(r.right, e),
                    fr@.len() <= n,
                    n == r.right.len(),
                    fid == first_id(gs, r.left),
                    0 <= fid < total,
                    node_of(gs, fid as int) == FFNode::First(r.left),
                    graph.wf(),
                    graph.head@.len() == total,
                    adj_sound(gs, graph.adj()),
                    forall|j: int| 0 <= j < k ==> rule_done(gs, graph.adj(), #[trigger] gs.rules[j]),
                    forall|j: int| 0 <= j < m ==> graph.adj()[fid as int].contains(target_id(gs, #[trigger] first_run(r.right, e)[j])),
                    graph.edges@.len() <= base + m,
                    base <= edge_budget(gs.rules.take(k as int)),
                    edge_budget(gs.rules.take(k + 1)) == edge_budget(gs.rules.take(k as int)) + n * (n + 1),
                    edge_budget(gs.rules.take(k + 1)) <= edge_budget(gs.rules),
            {
                assert(seq_view(fr@)[m as int] == fr@[m as int]@);
                proof {
                    lemma_first_run_kinds(r.right, e);
                    lemma_first_run_declared(gs, r.right, e, fr@[m as int]@);
                    lemma_ids(gs, fr@[m as int]@);
                    assert(n * (n + 1) >= n) by (nonlinear_arith) requires n >= 0;
                }
                let tid = exec_target_id(g, &fr[m]);
                let ghost old_adj = graph.adj();
                graph.add_edge(fid as i32, tid as i32);
                proof {
                    lemma_prepend(old_adj, fid as int, tid as int);
                    assert(adj_grows(old_adj, graph.adj()));
                    lemma_keep_done(gs, old_adj, graph.adj(), k as int);
                    assert(first_run(r.right, e).contains(fr@[m as int]@));
                    assert(rule_edge(gs.rules[k as int], e, node_of(gs, fid as int), node_of(gs, tid as int)));
                    assert(adj_sound(gs, graph.adj()));
                }
            }
            let mut i: usize = 0;
            while i < rule.right.len()
                invariant
                    gs == g@,
                    gs.wf(),
                    e == spec_empties(gs.rules),
                    seq_view(empties@).to_set() == e,
                    total == node_count(gs),
                    node_count(gs) + edge_budget(gs.rules) + 1 < i32::MAX,
                    edge_budget(gs.rules) >= 0,
                    0 <= k < gs.rules.len(),
                    r == gs.rules[k as int],
                    r == rule@,
                    r.right != seq![SpecLetter::Empty],
                    forall|m: int| 0 <= m < r.right.len() ==> declared_symbol(gs, #[trigger] r.right[m]),
                    n == r.right.len(),
                    0 <= i <= n,
                    fid == first_id(gs, r.left),
                    graph.wf(),
                    graph.head@.len() == total,
                    adj_sound(gs, graph.adj()),
                    forall|j: int| 0 <= j < k ==> rule_done(gs, graph.adj(), #[trigger] gs.rules[j]),
                    forall|j: int| 0 <= j < first_run(r.right, e).len() ==> graph.adj()[fid as int].contains(target_id(gs, #[trigger] first_run(r.right, e)[j])),
                    forall|j: int| 0 <= j < i && (#[trigger] r.right[j]) is NonTerminal ==> follow_done(gs, graph.adj(), r, j),
                    graph.edges@.len() <= base + n + i * n,
                    base <= edge_budget(gs.rules.take(k as int)),
                    edge_budget(gs.rules.take(k + 1)) == edge_budget(gs.rules.take(k as int)) + n * (n + 1),
                    edge_budget(gs.rules.take(k + 1)) <= edge_budget(gs.rules),
                decreases n - i,
            {
                assert(r.right[i as int] == rule.right@[i as int]@);
                if rule.right[i].is_non_terminal() {
                    let ghost b = r.right[i as int];
                    let ghost rest = r.right.skip(i + 1);
                    proof {
                        lemma_ids(gs, b);
                        lemma_ids(gs, r.left);
                        assert(seq_view(rule.right@).skip(i + 1) == rest);
                        lemma_first_run_len(rest, e);
                        assert forall|m: int| 0 <= m < rest.len() implies declared_symbol(gs, #[trigger] rest[m]) by {
                            assert(rest[m] == r.right[i + 1 + m]);
                        }
                        assert(n + i * n + n - i <= n + (i + 1) * n) by (nonlinear_arith) requires 0 <= i <= n;
                        assert(n + (i + 1) * n <= n * (n + 1)) by (nonlinear_arith) requires 0 <= i < n;
                        assert(base + n + (i + 1) * n <= edge_budget(gs.rules));
                    }
                    let bid = exec_follow_id(g, &rule.right[i]);
                    let fr2 = first_run_from(&rule.right, i + 1, empties);
                    for m in 0..fr2.len()
                        invariant
                            gs == g@,
                            gs.wf(),
                            e == spec_empties(gs.rules),
                            total == node_count(gs),
                            node_count(gs) + edge_budget(gs.rules) + 1 < i32::MAX,
                            edge_budget(gs.rules) >= 0,
                            0 <= k < gs.rules.len(),
                            r == gs.rules[k as int],
                            r.right != seq![SpecLetter::Empty],
                            0 <= i < n,
                            base + n + (i + 1) * n <= edge_budget(gs.rules),
                            fr2@.len() + i + 1 <= n,
                            n + i * n + n - i <= n + (i + 1) * n,
                            n == r.right.len(),
                            b == r.right[i as int],
                            b is NonTerminal,
                            rest == r.right.skip(i + 1),
                            forall|m: int| 0 <= m < rest.len() ==> declared_symbol(gs, #[trigger] rest[m]),
                            seq_view(fr2@) == first_run(rest, e),
                            fr2@.len() <= rest.len(),
                            bid == follow_id(gs, b),
                            0 <= bid < total,
                            node_of(gs, bid as int) == FFNode::Follow(b),
                            fid == first_id(gs, r.left),
                            graph.wf(),
                            graph.head@.len() == total,
                            adj_sound(gs, graph.adj()),
                            forall|j: int| 0 <= j < k ==> rule_done(gs, graph.adj(), #[trigger] gs.rules[j]),
                            forall|j: int| 0 <= j < first_run(r.right, e).len() ==> graph.adj()[fid as int].contains(target_id(gs, #[trigger] first_run(r.right, e)[j])),
                            forall|j: int| 0 <= j < i && (#[trigger] r.right[j]) is NonTerminal ==> follow_done(gs, graph.adj(), r, j),
                            forall|j: int| 0 <= j < m ==> graph.adj()[bid as int].contains(target_id(gs, #[trigger] first_run(rest, e)[j])),
                            graph.edges@.len() <= base + n + i * n + m,
                    {
                        assert(seq_view(fr2@)[m as int] == fr2@[m as int]@);
                        proof {
                            lemma_first_run_kinds(rest, e);
                            lemma_first_run_declared(gs, rest, e, fr2@[m as int]@);
                            lemma_ids(gs, fr2@[m as int]@);
                        }
                        let tid = exec_target_id(g, &fr2[m]);
                        let ghost old_adj = graph.adj();
                        graph.add_edge(bid as i32, tid as i32);
                        proof {
                            lemma_prepend(old_adj, bid as int, tid as int);
                            assert(adj_grows(old_adj, graph.adj()));
                            lemma_keep_done(gs, old_adj, graph.adj(), k as int);
                            assert forall|j: int| 0 <= j < i && (#[trigger] r.right[j]) is NonTerminal implies follow_done(gs, graph.adj(), r, j) by {
                                assert(follow_done(gs, old_adj, r, j));
                                assert(declared_symbol(gs, r.right[j]));
                                lemma_ids(gs, r.right[j]);
                                let rest2 = r.right.skip(j + 1);
                                assert forall|q: int| 0 <= q < first_run(rest2, e).len() implies graph.adj()[follow_id(gs, r.right[j])].contains(
                                    target_id(gs, #[trigger] first_run(rest2, e)[q])) by {
                                    assert(old_adj[follow_id(gs, r.right[j])].contains(target_id(gs, first_run(rest2, e)[q])));
                                }
                            }
                            assert forall|j: int| 0 <= j < first_run(r.right, e).len() implies graph.adj()[fid as int].contains(target_id(gs, #[trigger] first_run(r.right, e)[j])) by {
                                assert(old_adj[fid as int].contains(target_id(gs, first_run(r.right, e)[j])));
                            }
                            assert forall|j: int| 0 <= j < m implies graph.adj()[bid as int].contains(target_id(gs, #[trigger] first_run(rest, e)[j])) by {
                                assert(old_adj[bid as int].contains(target_id(gs, first_run(rest, e)[j])));
                            }
                            assert(first_run(rest, e).contains(fr2@[m as int]@));
                            assert(rule_edge(gs.rules[k as int], e, node_of(gs, bid as int), node_of(gs, tid as int)));
                            assert(adj_sound(gs, graph.adj()));
                        }
                    }
                    if all_nullable_from(&rule.right, i + 1, empties) {
                        let lid = exec_follow_id(g, &rule.left);
                        let ghost old_adj = graph.adj();
                        graph.add_edge(bid as i32, lid as i32);
                        proof {
                            lemma_prepend(old_adj, bid as int, lid as int);
                            assert(adj_grows(old_adj, graph.adj()));
                            lemma_keep_done(gs, old_adj, graph.adj(), k as int);
                            assert forall|j: int| 0 <= j < i && (#[trigger] r.right[j]) is NonTerminal implies follow_done(gs, graph.adj(), r, j) by {
                                assert(follow_done(gs, old_adj, r, j));
                                assert(declared_symbol(gs, r.right[j]));
                                lemma_ids(gs, r.right[j]);
                                let rest2 = r.right.skip(j + 1);
                                assert forall|q: int| 0 <= q < first_run(rest2, e).len() implies graph.adj()[follow_id(gs, r.right[j])].contains(
                                    target_id(gs, #[trigger] first_run(rest2, e)[q])) by {
                                    assert(old_adj[follow_id(gs, r.right[j])].contains(target_id(gs, first_run(rest2, e)[q])));
                                }
                            }
                            assert forall|j: int| 0 <= j < first_run(r.right, e).len() implies graph.adj()[fid as int].contains(target_id(gs, #[trigger] first_run(r.right, e)[j])) by {
                                assert(old_adj[fid as int].contains(target_id(gs, first_run(r.right, e)[j])));
                            }
                            assert forall|j: int| 0 <= j < first_run(rest, e).len() implies graph.adj()[bid as int].contains(target_id(gs, #[trigger] first_run(rest, e)[j])) by {
                                assert(old_adj[bid as int].contains(target_id(gs, first_run(rest, e)[j])));
                            }
                            assert(rule_edge(gs.rules[k as int], e, node_of(gs, bid as int), node_of(gs, lid as int)));
                            assert(adj_sound(gs, graph.adj()));
                        }
                    }
                    assert(follow_done(gs, graph.adj(), r, i as int));
                    assert(graph.edges@.len() <= base + n + (i + 1) * n);
                }
                assert(base + n + i * n <= base + n + (i + 1) * n) by (nonlinear_arith) requires n >= 0;
                i = i + 1;
            }
            proof {
                assert(n + n * n <= n * (n + 1)) by (nonlinear_arith);
            }
        }
        assert(rule_done(gs, graph.adj(), r));
    }
    proof {
        assert(gs.rules.take(gs.rules.len() as int) =~= gs.rules);
        lemma_ids(gs, gs.origin);
    }
    let oid = exec_follow_id(g, &g.origin);
    let ghost old_adj = graph.adj();
    graph.add_edge(oid as i32, 0);
    proof {
        lemma_prepend(old_adj, oid as int, 0);
        assert(adj_grows(old_adj, graph.adj()));
        lemma_keep_done(gs, old_adj, graph.adj(), gs.rules.len() as int);
        assert(adj_sound(gs, graph.adj()));
        lemma_adj_complete(gs, graph.adj());
    }
    graph
}

/// The symbols reachable from node `start` of the graph, each once.
fn reach_syms(g: &Grammar, graph: &Graph, start: usize) -> (res: Vec<Letter>)
    requires
        g@.wf(),
        graph.wf(),
        graph.head@.len() == node_count(g@),
        adj_sound(g@, graph.adj()),
        adj_complete(g@, graph.adj()),
        g@.terminals.len() < start < node_count(g@),
        node_count(g@) < i32::MAX,
    ensures
        seq_view(res@).no_duplicates(),
        seq_view(res@).to_set() == Set::new(|t: SpecLetter| reachable(ff_rel(g@), node_of(g@, start as int), FFNode::Sym(t))),
        forall|i: int| 0 <= i < res@.len() ==> !((#[trigger] res@[i])@ is Empty),
{
    let ghost gs = g@;
    let ghost rel = ff_rel(gs);
    let ghost st = node_of(gs, start as int);
    let ghost adj = graph.adj();
    let total = 2 * g.non_terminals.len() + g.terminals.len() + 1;
    let tcount = g.terminals.len();
    let mut vis: Vec<bool> = Vec::new();
    for i in 0..total
        invariant
            vis@.len() == i,
            forall|x: int| 0 <= x < i ==> !vis@[x],
    {
        vis.push(false);
    }
    vis.set(start, true);
    let mut stack: Vec<usize> = Vec::new();
    stack.push(start);
    let mut temp: Vec<Letter> = Vec::new();
    let ghost mut order: Seq<int> = seq![start as int];
    let ghost mut tids: Seq<int> = seq![];
    proof {
        lemma_reach_start(rel, st);
        assert(stack@[0] == start);
        assert(order[0] == start);
        assert forall|x: int| 0 <= x < total implies (#[trigger] vis@[x] <==> order.contains(x)) by {
            if x == start {
                assert(order[0] == x);
            } else if order.contains(x) {
                let q = choose|q: int| 0 <= q < order.len() && order[q] == x;
            }
        }
    }
    while stack.len() > 0
        invariant
            gs == g@,
            gs.wf(),
            rel == ff_rel(gs),
            st == node_of(gs, start as int),
            adj == graph.adj(),
            graph.wf(),
            adj.len() == node_count(gs),
            adj_sound(gs, adj),
            adj_complete(gs, adj),
            total == node_count(gs),
            total < i32::MAX,
            tcount == gs.terminals.len(),
            tcount < start < total,
            vis@.len() == total,
            vis@[start as int],
            order.no_duplicates(),
            forall|i: int| 0 <= i < order.len() ==> 0 <= #[trigger] order[i] < total,
            forall|x: int| 0 <= x < total ==> (#[trigger] vis@[x] <==> order.contains(x)),
            stack@.no_duplicates(),
            forall|i: int| 0 <= i < stack@.len() ==> 0 <= #[trigger] stack@[i] < total && vis@[stack@[i] as int],
            forall|x: int| 0 <= x < total && #[trigger] vis@[x] ==> reachable(rel, st, node_of(gs, x)),
            forall|x: int, y: int|
                0 <= x < total && vis@[x] && !stack@.contains(x as usize) && #[trigger] adj[x].contains(y) ==> vis@[y],
            temp@.len() == tids.len(),
            tids.no_duplicates(),
            forall|i: int| 0 <= i < tids.len() ==> 0 <= #[trigger] tids[i] <= tcount && vis@[tids[i]],
            forall|i: int| 0 <= i < tids.len() ==> node_of(gs, #[trigger] tids[i]) == FFNode::Sym(temp@[i]@),
            forall|x: int| 0 <= x <= tcount && #[trigger] vis@[x] ==> tids.contains(x),
            forall|i: int| 0 <= i < temp@.len() ==> !((#[trigger] temp@[i])@ is Empty),
            order.len() <= total,
        decreases total - order.len(), stack@.len(),
    {
        let ghost old_stack = stack@;
        let p = stack.pop().unwrap();
        assert(old_stack == stack@.push(p));
        assert(!stack@.contains(p)) by {
            if stack@.contains(p) {
                let q = choose|q: int| 0 <= q < stack@.len() && stack@[q] == p;
                assert(old_stack[q] == old_stack[old_stack.len() - 1]);
            }
        }
        let succ = graph.successors(p);
        let ghost order0 = order;
        proof {
            assert forall|i: int| 0 <= i < succ@.len() implies 0 <= #[trigger] succ@[i] < total by {
                assert(succ@.map_values(|x: i32| x as int)[i] == succ@[i] as int);
                assert(adj[p as int].contains(succ@[i] as int));
            }
        }
        for j in 0..succ.len()
            invariant
                gs == g@,
                gs.wf(),
                rel == ff_rel(gs),
                st == node_of(gs, start as int),
                adj == graph.adj(),
                adj.len() == node_count(gs),
                adj_sound(gs, adj),
                total == node_count(gs),
                total < i32::MAX,
                tcount == gs.terminals.len(),
                tcount < start < total,
                0 <= p < total,
                vis@[p as int],
                !stack@.contains(p),
                succ@.map_values(|x: i32| x as int) == adj[p as int],
                vis@.len() == total,
                vis@[start as int],
                order.len() >= order0.len(),
                order.no_duplicates(),
                forall|i: int| 0 <= i < order.len() ==> 0 <= #[trigger] order[i] < total,
                forall|x: int| 0 <= x < total ==> (#[trigger] vis@[x] <==> order.contains(x)),
                stack@.no_duplicates(),
                forall|i: int| 0 <= i < stack@.len() ==> 0 <= #[trigger] stack@[i] < total && vis@[stack@[i] as int],
                forall|x: int| 0 <= x < total && #[trigger] vis@[x] ==> reachable(rel, st, node_of(gs, x)),
                forall|x: int, y: int|
                    0 <= x < total && vis@[x] && !stack@.contains(x as usize) && x != p && #[trigger] adj[x].contains(y) ==> vis@[y],
                forall|i: int| 0 <= i < succ@.len() ==> 0 <= #[trigger] succ@[i] < total,
                forall|i: int| 0 <= i < j ==> vis@[#[trigger] succ@[i] as int],
                forall|i: int| 0 <= i < temp@.len() ==> !((#[trigger] temp@[i])@ is Empty),
                stack@.len() >= old_stack.len() - 1,
                order.len() > order0.len() || stack@.len() == old_stack.len() - 1,
                temp@.len() == tids.len(),
                tids.no_duplicates(),
                forall|i: int| 0 <= i < tids.len() ==> 0 <= #[trigger] tids[i] <= tcount && vis@[tids[i]],
                forall|i: int| 0 <= i < tids.len() ==> node_of(gs, #[trigger] tids[i]) == FFNode::Sym(temp@[i]@),
                forall|x: int| 0 <= x <= tcount && #[trigger] vis@[x] ==> tids.contains(x),
        {
            assert(succ@.map_values(|x: i32| x as int)[j as int] == succ@[j as int] as int);
            assert(adj[p as int].contains(succ@[j as int] as int));
            let to = succ[j] as usize;
            if !vis[to] {
                proof {
                    lemma_reach_step(rel, st, node_of(gs, p as int), node_of(gs, to as int));
                }
                let ghost old_vis = vis@;
                let ghost old_st = stack@;
                let ghost old_order = order;
                let ghost old_tids = tids;
                vis.set(to, true);
                stack.push(to);
                proof {
                    broadcast use vstd::seq_lib::lemma_seq_contains_after_push;
                    assert(!order.contains(to as int));
                    order = order.push(to as int);
                    assert forall|x: int| 0 <= x < total implies (#[trigger] vis@[x] <==> order.contains(x)) by {
                        if x != to {
                            assert(vis@[x] == old_vis[x]);
                            assert(old_vis[x] <==> old_order.contains(x));
                        }
                    }
                    assert(!old_st.contains(to)) by {
                        if old_st.contains(to) {
                            let q = choose|q: int| 0 <= q < old_st.len() && old_st[q] == to;
                            assert(old_vis[old_st[q] as int]);
                        }
                    }
                    assert forall|x: int, y: int|
                        0 <= x < total && vis@[x] && !stack@.contains(x as usize) && x != p && #[trigger] adj[x].contains(y) implies vis@[y] by {
                        if x != to {
                            assert(!old_st.contains(x as usize)) by {
                                if old_st.contains(x as usize) {
                                    let q = choose|q: int| 0 <= q < old_st.len() && old_st[q] == x as usize;
                                    assert(stack@[q] == x as usize);
                                }
                            }
                            assert(old_vis[x]);
                        } else {
                            assert(stack@[stack@.len() - 1] == to);
                        }
                    }
                }
                if to <= tcount {
                    proof {
                        lemma_ids(gs, if to == 0 { SpecLetter::EndSign } else { gs.terminals[to - 1] });
                    }
                    let sym = if to == 0 {
                        Letter::EndSign
                    } else {
                        g.terminals[to - 1].clone()
                    };
                    temp.push(sym);
                    proof {
                        assert(gs.terminals.len() > 0 && to > 0 ==> gs.terminals[to - 1] is Terminal);
                        assert(!tids.contains(to as int)) by {
                            if tids.contains(to as int) {
                                let q = choose|q: int| 0 <= q < tids.len() && tids[q] == to as int;
                                assert(old_vis[tids[q]]);
                            }
                        }
                        tids = tids.push(to as int);
                    }
                }
                proof {
                    broadcast use vstd::seq_lib::lemma_seq_contains_after_push;
                    assert forall|x: int| 0 <= x <= tcount && #[trigger] vis@[x] implies tids.contains(x) by {
                        if x == to {
                            assert(tids[tids.len() - 1] == x);
                        } else {
                            assert(old_vis[x]);
                            assert(old_tids.contains(x));
                        }
                    }
                }
            }
        }
        proof {
            assert forall|y: int| #[trigger] adj[p as int].contains(y) implies vis@[y] by {
                let q = choose|q: int| 0 <= q < adj[p as int].len() && adj[p as int][q] == y;
                assert(succ@.map_values(|x: i32| x as int)[q] == succ@[q] as int);
            }
            vstd::set_lib::lemma_int_range(0, total as int);
            lemma_distinct_within_len(order, vstd::set_lib::set_int_range(0, total as int));
        }
    }
    proof {
        let vset = Set::new(|w: FFNode| exists|x: int| 0 <= x < total && vis@[x] && #[trigger] node_of(gs, x) == w);
        assert(vset.contains(st));
        assert(closed_under(rel, vset)) by {
            assert forall|u: FFNode, w: FFNode| vset.contains(u) && #[trigger] rel(u, w) implies vset.contains(w) by {
                let x = choose|x: int| 0 <= x < total && vis@[x] && #[trigger] node_of(gs, x) == u;
                lemma_edge_target_valid(gs, u, w);
                let y = choose|y: int| 0 <= y < node_count(gs) && node_of(gs, y) == w;
                assert(ff_edge(gs, node_of(gs, x), node_of(gs, y)));
                assert(adj[x].contains(y));
            }
        }
        let want = Set::new(|t: SpecLetter| reachable(rel, st, FFNode::Sym(t)));
        assert forall|t: SpecLetter| want.contains(t) implies seq_view(temp@).to_set().contains(t) by {
            assert(vset.contains(FFNode::Sym(t)));
            let x = choose|x: int| 0 <= x < total && vis@[x] && #[trigger] node_of(gs, x) == FFNode::Sym(t);
            assert(x <= tcount);
            assert(tids.contains(x));
            let q = choose|q: int| 0 <= q < tids.len() && tids[q] == x;
            assert(seq_view(temp@)[q] == t);
        }
        assert forall|t: SpecLetter| seq_view(temp@).to_set().contains(t) implies want.contains(t) by {
            let q = choose|q: int| 0 <= q < seq_view(temp@).len() && seq_view(temp@)[q] == t;
            assert(node_of(gs, tids[q]) == FFNode::Sym(temp@[q]@));
        }
        assert(seq_view(temp@).to_set() =~= want);
        assert forall|a: int, b: int| 0 <= a < seq_view(temp@).len() && 0 <= b < seq_view(temp@).len() && a != b implies seq_view(temp@)[a] != seq_view(temp@)[b] by {
            if seq_view(temp@)[a] == seq_view(temp@)[b] {
                lemma_node_of_injective(gs, tids[a], tids[b]);
            }
        }
    }
    temp
}

impl FirstFollowSet {
    /// The FIRST and FOLLOW sets of every non terminal of a grammar.
    pub fn from_grammar(g: &Grammar) -> (res: FirstFollowSet)
        requires
            g@.wf(),
            node_count(g@) + edge_budget(g@.rules) + 1 < i32::MAX,
        ensures
            res.of_grammar(g@),
    {
        let ghost gs = g@;
        proof {
            lemma_edge_budget_mono(gs.rules, 0);
            assert forall|k: int| 0 <= k < gs.rules.len() implies (#[trigger] gs.rules[k]).right.len() > 0 by {
                assert(wf_rule(gs, gs.rules[k]));
            }
        }
        let empties = g.calc_empties();
        let graph = build_graph(g, &empties);
        let mut first_set: Vec<(Letter, Vec<Letter>)> = Vec::new();
        let mut follow_set: Vec<(Letter, Vec<Letter>)> = Vec::new();
        for i in 0..g.non_terminals.len()
            invariant
                gs == g@,
                gs.wf(),
                node_count(gs) < i32::MAX,
                seq_view(empties@).to_set() == spec_empties(gs.rules),
                graph.wf(),
                graph.head@.len() == node_count(gs),
                adj_sound(gs, graph.adj()),
                adj_complete(gs, graph.adj()),
                first_set@.len() == i,
                follow_set@.len() == i,
                forall|j: int| 0 <= j < i ==> (#[trigger] first_set@[j]).0@ == gs.non_terminals[j],
                forall|j: int| 0 <= j < i ==> (#[trigger] follow_set@[j]).0@ == gs.non_terminals[j],
                forall|j: int| 0 <= j < i ==> seq_view((#[trigger] first_set@[j]).1@).no_duplicates(),
                forall|j: int| 0 <= j < i ==> seq_view((#[trigger] follow_set@[j]).1@).no_duplicates(),
                forall|j: int| 0 <= j < i ==> seq_view((#[trigger] first_set@[j]).1@).to_set() == spec_first_set(gs, gs.non_terminals[j]),
                forall|j: int| 0 <= j < i ==> seq_view((#[trigger] follow_set@[j]).1@).to_set() == spec_follow_set(gs, gs.non_terminals[j]),
        {
            let nt = &g.non_terminals[i];
            let ghost a = gs.non_terminals[i as int];
            assert(nt@ == a);
            proof {
                assert(gs.non_terminals.contains(a));
                lemma_ids(gs, a);
            }
            let fid = exec_first_id(g, nt);
            let mut first = reach_syms(g, &graph, fid);
            let ghost base = Set::new(|t: SpecLetter| reachable(ff_rel(gs), FFNode::First(a), FFNode::Sym(t)));
            assert(seq_view(first@).to_set() == base);
            if contains(&empties, nt) {
                let ghost before = seq_view(first@);
                assert(!before.contains(SpecLetter::Empty)) by {
                    if before.contains(SpecLetter::Empty) {
                        assert(base.contains(SpecLetter::Empty));
                    }
                }
                first.push(Letter::Empty);
                assert(seq_view(first@) =~= before.push(SpecLetter::Empty));
                proof {
                    broadcast use vstd::seq_lib::lemma_seq_contains_after_push;
                    assert(seq_view(first@).to_set() =~= base.insert(SpecLetter::Empty));
                }
            }
            let bid = exec_follow_id(g, nt);
            let follow = reach_syms(g, &graph, bid);
            first_set.push((nt.clone(), first));
            follow_set.push((nt.clone(), follow));
        }
        let res = FirstFollowSet { first_set, follow_set };
        proof {
            assert(keys_of(res.first_set@) =~= gs.non_terminals);
            assert(keys_of(res.follow_set@) =~= gs.non_terminals);
        }
        res
    }
}

/// The position of the entry for `x` in a table with one entry per key.
pub fn lookup(m: &Vec<(Letter, Vec<Letter>)>, x: &Letter) -> (r: usize)
    requires
        keys_of(m@).no_duplicates(),
        has_entry(m@, x@),
    ensures
        r < m@.len(),
        m@[r as int].0@ == x@,
        entry_set(m@, x@) == seq_view(m@[r as int].1@).to_set(),
{
    let mut i: usize = 0;
    while i < m.len()
        invariant
            0 <= i <= m@.len(),
            forall|j: int| 0 <= j < i ==> (#[trigger] m@[j]).0@ != x@,
            has_entry(m@, x@),
            keys_of(m@).no_duplicates(),
        decreases m@.len() - i,
    {
        if m[i].0 == *x {
            proof {
                let c = choose|j: int| 0 <= j < m@.len() && (#[trigger] m@[j]).0@ == x@;
                assert(keys_of(m@)[c] == m@[c].0@);
                assert(keys_of(m@)[i as int] == m@[i as int].0@);
                assert(m@[i as int].0@ == x@);
                assert(keys_of(m@).no_duplicates());
                if c != i {
                    assert(keys_of(m@)[c] != keys_of(m@)[i as int]);
                }
            }
            return i;
        }
        i = i + 1;
    }
    proof {
        let c = choose|j: int| 0 <= j < m@.len() && (#[trigger] m@[j]).0@ == x@;
        assert(m@[c].0@ == x@);
    }
    0
}

impl FirstFollowSet {
    /// FIRST of a string of symbols, by the stored FIRST sets, each symbol once.
    pub fn first_set_of_sentence(&self, sentence: &Sentence) -> (res: Vec<Letter>)
        requires
            self.wf(),
            sentence@ == seq![SpecLetter::Empty] || forall|i: int| 0 <= i < sentence@.len() ==> !((#[trigger] sentence@[i]) is Empty),
            forall|i: int| 0 <= i < sentence@.len() && (#[trigger] sentence@[i]) is NonTerminal ==> has_entry(self.first_set@, sentence@[i]),
        ensures
            seq_view(res@).no_duplicates(),
            seq_view(res@).to_set() == spec_sentence_first(self.first_set@, sentence@),
    {
        let ghost m = self.first_set@;
        let ghost sv = sentence@;
        let s = &sentence.sentence;
        if s.len() == 1 && s[0].is_empty() {
            let mut v = Vec::new();
            v.push(Letter::Empty);
            proof {
                broadcast use vstd::seq_lib::lemma_seq_contains_after_push;
                assert(seq_view(v@) =~= seq![SpecLetter::Empty]);
                assert(seq_view(v@).to_set() =~= set![SpecLetter::Empty]);
            }
            return v;
        }
        let mut ans: Vec<Letter> = Vec::new();
        let mut i: usize = 0;
        proof {
            assert(sv.skip(0) =~= sv);
            assert(seq_view(ans@).to_set() =~= Set::<SpecLetter>::empty());
        }
        while i < s.len()
            invariant
                m == self.first_set@,
                sv == sentence@,
                *s == sentence.sentence,
                self.wf(),
                0 <= i <= sv.len(),
                forall|i: int| 0 <= i < sv.len() ==> !((#[trigger] sv[i]) is Empty),
                forall|i: int| 0 <= i < sv.len() && (#[trigger] sv[i]) is NonTerminal ==> has_entry(m, sv[i]),
                seq_view(ans@).no_duplicates(),
                !seq_view(ans@).contains(SpecLetter::Empty),
                sentence_first(m, sv) == seq_view(ans@).to_set().union(sentence_first(m, sv.skip(i as int))),
            decreases sv.len() - i,
        {
            let ghost rest = sv.skip(i as int);
            assert(rest[0] == s@[i as int]@);
            assert(rest.drop_first() =~= sv.skip(i + 1));
            if s[i].is_non_terminal() {
                let r = lookup(&self.first_set, &s[i]);
                let f = &self.first_set[r].1;
                let ghost fset = seq_view(f@).to_set();
                let ghost a0 = seq_view(ans@).to_set();
                for j in 0..f.len()
                    invariant
                        seq_view(ans@).no_duplicates(),
                        !seq_view(ans@).contains(SpecLetter::Empty),
                        fset == seq_view(f@).to_set(),
                        seq_view(ans@).to_set() == a0.union(seq_view(f@).take(j as int).to_set().remove(SpecLetter::Empty)),
                {
                    let ghost before = seq_view(ans@);
                    proof {
                        broadcast use vstd::seq_lib::lemma_seq_contains_after_push;
                        assert(seq_view(f@).take(j + 1) =~= seq_view(f@).take(j as int).push(f@[j as int]@));
                    }
                    if !f[j].is_empty() && !contains(&ans, &f[j]) {
                        ans.push(f[j].clone());
                        proof {
                            broadcast use vstd::seq_lib::lemma_seq_contains_after_push;
                            assert(seq_view(ans@) =~= before.push(f@[j as int]@));
                            crate::utils::lemma_push_no_dup(before, f@[j as int]@);
                            let x = f@[j as int]@;
                            assert forall|y: SpecLetter| seq_view(ans@).to_set().contains(y) <==> a0.union(seq_view(f@).take(j + 1).to_set().remove(SpecLetter::Empty)).contains(y) by {
                                let t1 = seq_view(f@).take(j + 1);
                                let t0 = seq_view(f@).take(j as int);
                                if y == x {
                                    assert(seq_view(ans@)[before.len() as int] == x);
                                    assert(t1[j as int] == x);
                                    assert(t1.to_set().contains(x));
                                } else {
                                    assert(seq_view(ans@).to_set().contains(y) <==> before.to_set().contains(y));
                                    assert(t1.to_set().contains(y) <==> t0.to_set().contains(y));
                                }
                            }
                            assert(seq_view(ans@).to_set() =~= a0.union(seq_view(f@).take(j + 1).to_set().remove(SpecLetter::Empty)));
                        }
                    } else {
                        proof {
                            broadcast use vstd::seq_lib::lemma_seq_contains_after_push;
                            let x = f@[j as int]@;
                            assert forall|y: SpecLetter| seq_view(ans@).to_set().contains(y) <==> a0.union(seq_view(f@).take(j + 1).to_set().remove(SpecLetter::Empty)).contains(y) by {
                                if y == x && y != SpecLetter::Empty {
                                    assert(before.contains(x));
                                }
                            }
                            assert(seq_view(ans@).to_set() =~= a0.union(seq_view(f@).take(j + 1).to_set().remove(SpecLetter::Empty)));
                        }
                    }
                }
                proof {
                    assert(seq_view(f@).take(f@.len() as int) =~= seq_view(f@));
                }
                if !contains(f, &Letter::Empty) {
                    proof {
                        assert(fset.remove(SpecLetter::Empty) =~= fset);
                        assert(sentence_first(m, rest) == fset);
                        assert(seq_view(ans@).to_set() =~= seq_view(ans@).to_set().union(sentence_first(m, rest)));
                    }
                    return ans;
                }
                proof {
                    assert(sentence_first(m, rest) == fset.remove(SpecLetter::Empty).union(sentence_first(m, sv.skip(i + 1))));
                    assert(sentence_first(m, sv) =~= seq_view(ans@).to_set().union(sentence_first(m, sv.skip(i + 1))));
                }
            } else {
                let ghost before = seq_view(ans@);
                if !contains(&ans, &s[i]) {
                    ans.push(s[i].clone());
                    proof {
                        broadcast use vstd::seq_lib::lemma_seq_contains_after_push;
                        assert(seq_view(ans@) =~= before.push(rest[0]));
                        crate::utils::lemma_push_no_dup(before, rest[0]);
                        assert(seq_view(ans@).to_set() =~= before.to_set().insert(rest[0]));
                    }
                } else {
                    proof {
                        assert(seq_view(ans@).to_set() =~= before.to_set().insert(rest[0]));
                    }
                }
                proof {
                    assert(sentence_first(m, rest) == set![rest[0]]);
                    assert(seq_view(ans@).to_set() =~= seq_view(ans@).to_set().union(sentence_first(m, rest)));
                }
                return ans;
            }
            i = i + 1;
        }
        let ghost before = seq_view(ans@);
        ans.push(Letter::Empty);
        proof {
            crate::utils::lemma_push_no_dup(before, SpecLetter::Empty);
            broadcast use vstd::seq_lib::lemma_seq_contains_after_push;
            assert(sv.skip(sv.len() as int) =~= Seq::<SpecLetter>::empty());
            assert(seq_view(ans@) =~= before.push(SpecLetter::Empty));
            assert(seq_view(ans@).to_set() =~= before.to_set().insert(SpecLetter::Empty));
        }
        ans
    }
}

/// A FIRST table of `g` stores FIRST of each declared non terminal.
pub proof fn lemma_entry_set_of(g: SpecGrammar, ff: &FirstFollowSet, x: SpecLetter)
    requires
        ff.of_grammar(g),
        g.non_terminals.contains(x),
    ensures
        entry_set(ff.first_set@, x) == spec_first_set(g, x),
{
    let m = ff.first_set@;
    let i = choose|i: int| 0 <= i < g.non_terminals.len() && g.non_terminals[i] == x;
    assert(keys_of(m)[i] == x);
    assert(m[i].0@ == x);
    let j = choose|j: int| 0 <= j < m.len() && (#[trigger] m[j]).0@ == x;
    assert(keys_of(m)[j] == x);
    assert(keys_of(m).no_duplicates());
}

/// Two FIRST tables of `g` give the same FIRST of a string of terminals, `#` and declared
/// non terminals.
pub proof fn lemma_sentence_first_agree(g: SpecGrammar, ff1: &FirstFollowSet, ff2: &FirstFollowSet, s: Seq<SpecLetter>)
    requires
        ff1.of_grammar(g),
        ff2.of_grammar(g),
        forall|i: int| 0 <= i < s.len() ==> (#[trigger] s[i]) is NonTerminal ==> g.non_terminals.contains(s[i]),
    ensures
        sentence_first(ff1.first_set@, s) == sentence_first(ff2.first_set@, s),
    decreases s.len(),
{
    if s.len() > 0 {
        let t = s.drop_first();
        assert forall|i: int| 0 <= i < t.len() && (#[trigger] t[i]) is NonTerminal implies g.non_terminals.contains(t[i]) by {
            assert(t[i] == s[i + 1]);
        }
        lemma_sentence_first_agree(g, ff1, ff2, t);
        if s[0] is NonTerminal {
            assert(g.non_terminals.contains(s[0]));
            lemma_entry_set_of(g, ff1, s[0]);
            lemma_entry_set_of(g, ff2, s[0]);
        }
    }
}

} // verus!

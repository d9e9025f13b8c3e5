use vstd::prelude::*;
use crate::grammar::letter::{Letter, SpecLetter, seq_view, spec_letter_str};
use crate::grammar::rule::SpecRule;
use crate::token::{Token, TokenStream, SpecToken};
use crate::parse_tree::{ParseTree, NonLeafNode, SpecTree, tree_view, children_view};
use super::{LRTable, GotoTableItem, ActionTableItem, SpecAction, goto_get, action_get, goto_map, action_map};

verus! {

/// The symbol a token stands for: the end marker for `EOF`, else the terminal of its type.
pub open spec fn token_letter(t: SpecToken) -> SpecLetter {
    if t.ttype == "EOF"@ {
        SpecLetter::EndSign
    } else {
        SpecLetter::Terminal(t.ttype)
    }
}

/// A configuration of the LR driver: the state stack, the symbol stack, the stack of
/// subtrees and the position in the input.
pub struct LRConfig {
    pub states: Seq<usize>,
    pub signs: Seq<SpecLetter>,
    pub trees: Seq<SpecTree>,
    pub pos: int,
}

/// What one step of the driver does.
pub enum LRStep {
    Next(LRConfig),
    Accept(LRConfig),
    Reject,
    Stuck,
}

/// How a run of the driver ends: with a tree, refused, on an entry that the table
/// does not hold or cannot follow, or not within the step budget.
pub enum LROutcome {
    Accepted(SpecTree),
    Rejected,
    Stuck,
    OutOfSteps,
}

/// The number of symbols a reduction by `right` pops from `signs`: the driver compares
/// the right side with the top of the stack from the end, stopping at the first
/// difference or after the whole right side; `None` where it would run off the stack.
pub open spec fn pops(right: Seq<SpecLetter>, signs: Seq<SpecLetter>, i: nat) -> Option<nat>
    decreases right.len() - i,
{
    let rl = right.len();
    let sl = signs.len();
    if i >= rl || i >= sl {
        None
    } else if right[rl - 1 - i] != signs[sl - 1 - i] {
        Some(i)
    } else if rl - 1 - i == 0 {
        Some(i + 1)
    } else if sl - 1 - i == 0 {
        None
    } else {
        pops(right, signs, i + 1)
    }
}

/// The subtrees of a reduction: the popped trees, last popped first.
pub open spec fn reduced_children(trees: Seq<SpecTree>, m: nat) -> Seq<SpecTree> {
    trees.subrange(trees.len() - m, trees.len() as int).reverse()
}

/// A reduction by `r`.
pub open spec fn reduce_step(gotos: Seq<Map<SpecLetter, GotoTableItem>>, c: LRConfig, r: SpecRule) -> LRStep {
    if r.right.len() == 0 || c.signs.len() == 0 {
        LRStep::Stuck
    } else {
        match pops(r.right, c.signs, 0) {
            None => LRStep::Stuck,
            Some(m) => {
                if c.trees.len() < m {
                    LRStep::Stuck
                } else {
                    let states = if c.states.len() >= m {
                        c.states.take(c.states.len() - m)
                    } else {
                        Seq::empty()
                    };
                    if states.len() == 0 {
                        LRStep::Stuck
                    } else {
                        let top = states.last();
                        if top >= gotos.len() || !gotos[top as int].dom().contains(r.left) {
                            LRStep::Stuck
                        } else {
                            match gotos[top as int][r.left] {
                                GotoTableItem::Error => LRStep::Stuck,
                                GotoTableItem::Step(n) => LRStep::Next(
                                    LRConfig {
                                        states: states.push(n),
                                        signs: c.signs.take(c.signs.len() - m).push(r.left),
                                        trees: c.trees.take(c.trees.len() - m).push(
                                            SpecTree::Node(spec_letter_str(r.left), reduced_children(c.trees, m)),
                                        ),
                                        pos: c.pos,
                                    },
                                ),
                            }
                        }
                    }
                }
            },
        }
    }
}

/// One step of the driver on the input `toks` (`pos` within it).
pub open spec fn lr_step(
    actions: Seq<Map<SpecLetter, SpecAction>>,
    gotos: Seq<Map<SpecLetter, GotoTableItem>>,
    toks: Seq<SpecToken>,
    c: LRConfig,
) -> LRStep {
    if c.states.len() == 0 || c.states.last() >= actions.len() || c.pos < 0 || c.pos >= toks.len() {
        LRStep::Stuck
    } else {
        let cur = c.states.last();
        let a = token_letter(toks[c.pos]);
        if !actions[cur as int].dom().contains(a) {
            LRStep::Stuck
        } else {
            match actions[cur as int][a] {
                SpecAction::Error => LRStep::Reject,
                SpecAction::Accept => LRStep::Accept(c),
                SpecAction::Step(n) => LRStep::Next(
                    LRConfig {
                        states: c.states.push(n),
                        signs: c.signs.push(a),
                        trees: c.trees.push(SpecTree::Leaf(toks[c.pos])),
                        pos: c.pos + 1,
                    },
                ),
                SpecAction::Reduce(r) => reduce_step(gotos, c, r),
            }
        }
    }
}

/// The end of a run: the single tree left on the stack.
pub open spec fn lr_finish(c: LRConfig) -> LROutcome {
    if c.trees.len() == 1 {
        LROutcome::Accepted(c.trees[0])
    } else {
        LROutcome::Stuck
    }
}

/// A run of the driver from `c` with at most `fuel` steps.
pub open spec fn lr_run(
    actions: Seq<Map<SpecLetter, SpecAction>>,
    gotos: Seq<Map<SpecLetter, GotoTableItem>>,
    toks: Seq<SpecToken>,
    c: LRConfig,
    fuel: nat,
) -> LROutcome
    decreases fuel,
{
    if c.pos >= toks.len() {
        lr_finish(c)
    } else if fuel == 0 {
        LROutcome::OutOfSteps
    } else {
        match lr_step(actions, gotos, toks, c) {
            LRStep::Next(c2) => lr_run(actions, gotos, toks, c2, (fuel - 1) as nat),
            LRStep::Accept(c2) => lr_finish(c2),
            LRStep::Reject => LROutcome::Rejected,
            LRStep::Stuck => LROutcome::Stuck,
        }
    }
}

/// The start configuration: state 0 over the end marker.
pub open spec fn lr_start() -> LRConfig {
    LRConfig { states: seq![0usize], signs: seq![SpecLetter::EndSign], trees: Seq::empty(), pos: 0 }
}

/// The step budget of the driver.
pub open spec fn lr_budget() -> nat {
    usize::MAX as nat
}

/// The abstract values of a stack of trees.
pub open spec fn trees_view(t: Seq<ParseTree>) -> Seq<SpecTree> {
    t.map_values(|x: ParseTree| tree_view(x))
}

/// The abstract values of the tokens.
pub open spec fn tokens_view(t: Seq<Token>) -> Seq<SpecToken> {
    t.map_values(|x: Token| x@)
}

/// The outcome of parsing `tokens` with `t`.
pub open spec fn lr_outcome(t: &LRTable, tokens: &TokenStream) -> LROutcome {
    lr_run(t.action_maps(), t.goto_maps(), tokens_view(tokens.stream@), lr_start(), lr_budget())
}

/// The result of a run of the LR driver.
pub enum LRAnalysis {
    Accepted(ParseTree),
    Rejected,
    Stuck,
    OutOfSteps,
}

/// The configuration that the exec stacks stand for.
pub open spec fn config_of(states: Seq<usize>, signs: Seq<Letter>, trees: Seq<ParseTree>, pos: int) -> LRConfig {
    LRConfig { states, signs: seq_view(signs), trees: trees_view(trees), pos }
}

proof fn lemma_trees_push(t: Seq<ParseTree>, x: ParseTree)
    ensures
        trees_view(t.push(x)) == trees_view(t).push(tree_view(x)),
{
    assert(trees_view(t.push(x)) =~= trees_view(t).push(tree_view(x)));
}

proof fn lemma_children_push(c: Seq<Box<ParseTree>>, x: ParseTree)
    ensures
        children_view(c.push(Box::new(x))) == children_view(c).push(tree_view(x)),
{
    assert(c.push(Box::new(x)).drop_last() =~= c);
}

/// The symbol a token stands for.
pub(crate) fn letter_of_token(tok: &Token) -> (res: Letter)
    ensures
        res@ == token_letter(tok@),
{
    let eof = String::from_str("EOF");
    if tok.ttype.eq(&eof) {
        Letter::EndSign
    } else {
        Letter::Terminal(tok.ttype.clone())
    }
}

impl LRTable {
    /// Performs a reduction by `rule` on the stacks; `false` where the driver cannot go on.
    fn reduce_on_stacks(
        &self,
        states: &mut Vec<usize>,
        signs: &mut Vec<Letter>,
        trees: &mut Vec<ParseTree>,
        rule: &crate::grammar::rule::Rule,
        Ghost(pos): Ghost<int>,
    ) -> (ok: bool)
        ensures
            ok ==> reduce_step(self.goto_maps(), config_of(old(states)@, old(signs)@, old(trees)@, pos), rule@) == LRStep::Next(
                config_of(final(states)@, final(signs)@, final(trees)@, pos),
            ),
            !ok ==> reduce_step(self.goto_maps(), config_of(old(states)@, old(signs)@, old(trees)@, pos), rule@) == LRStep::Stuck,
    {
        let ghost c = config_of(states@, signs@, trees@, pos);
        let ghost st0 = states@;
        let ghost tr0 = trees@;
        let ghost sg0 = signs@;
        let rl = rule.right.len();
        let sl = signs.len();
        if rl == 0 || sl == 0 {
            return false;
        }
        let ghost right = rule@.right;
        let ghost sv = seq_view(sg0);
        let mut children: Vec<Box<ParseTree>> = Vec::new();
        let mut m: usize = 0;
        let mut done = false;
        while !done
            invariant
                c == config_of(st0, sg0, tr0, pos),
                st0 == old(states)@,
                sg0 == old(signs)@,
                tr0 == old(trees)@,
                right == rule@.right,
                right.len() == rl,
                sv == seq_view(sg0),
                sv.len() == sl,
                rl > 0,
                sl > 0,
                m <= rl,
                m <= sl,
                m <= tr0.len(),
                !done ==> m < rl && m < sl,
                pops(right, sv, 0) == (if done { Some(m as nat) } else { pops(right, sv, m as nat) }),
                signs@ == sg0.take(sl - m),
                trees@ == tr0.take(tr0.len() - m),
                states@ == (if st0.len() >= m { st0.take(st0.len() - m) } else { Seq::<usize>::empty() }),
                children_view(children@) == reduced_children(trees_view(tr0), m as nat),
            decreases rl - m + (if done { 0int } else { 1int }),
        {
            assert(signs@[sl - 1 - m]@ == sv[sl - 1 - m]);
            assert(rule.right@[rl - 1 - m]@ == right[rl - 1 - m]);
            if rule.right[rl - 1 - m] != signs[sl - 1 - m] {
                done = true;
            } else {
                let ghost tv = trees_view(tr0);
                match trees.pop() {
                    None => {
                        proof {
                            assert(tr0.len() == m);
                            lemma_pops_at_least(right, sv, m as nat);
                            assert(c.trees.len() == m);
                            assert(c.signs == sv);
                            match pops(right, sv, 0) {
                                Some(k) => assert(k > m),
                                None => {},
                            }
                        }
                        return false;
                    },
                    Some(t) => {
                        let ghost ch0 = children@;
                        proof {
                            lemma_children_push(ch0, t);
                            assert(tree_view(t) == tv[tv.len() - 1 - m]);
                            assert(reduced_children(tv, (m + 1) as nat) =~= reduced_children(tv, m as nat).push(tv[tv.len() - 1 - m]));
                        }
                        children.push(Box::new(t));
                    },
                }
                states.pop();
                signs.pop();
                proof {
                    assert(trees@ =~= tr0.take(tr0.len() - (m + 1)));
                    assert(signs@ =~= sg0.take(sl - (m + 1)));
                    if st0.len() >= m + 1 {
                        assert(states@ =~= st0.take(st0.len() - (m + 1)));
                    } else {
                        assert(states@ =~= Seq::<usize>::empty());
                    }
                }
                let ghost m_old = m;
                m = m + 1;
                if rl - m == 0 {
                    done = true;
                } else if sl - m == 0 {
                    proof {
                        assert(pops(right, sv, m_old as nat) == None::<nat>);
                        assert(c.signs == sv);
                    }
                    return false;
                }
            }
        }
        let ghost mm = m as nat;
        assert(pops(right, sv, 0) == Some(mm));
        let top = match states.last() {
            None => {
                return false;
            },
            Some(x) => *x,
        };
        if top >= self.goto.len() {
            return false;
        }
        assert(self.goto_maps()[top as int] == goto_map(self.goto@[top as int]@));
        let next = match goto_get(&self.goto[top], &rule.left) {
            None => {
                return false;
            },
            Some(GotoTableItem::Error) => {
                return false;
            },
            Some(GotoTableItem::Step(n)) => n,
        };
        let node = NonLeafNode { name: rule.left.get_str().to_owned(), children };
        let ghost tr_before = trees@;
        let ghost sg_before = signs@;
        states.push(next);
        signs.push(rule.left.clone());
        trees.push(ParseTree::NonLeaf(node));
        proof {
            lemma_trees_push(tr_before, ParseTree::NonLeaf(node));
            crate::grammar::letter::lemma_seq_view_push(sg_before, rule.left);
            lemma_take_view(sg0, (sl - m) as int);
            lemma_take_trees(tr0, (tr0.len() - m) as int);
            assert(config_of(states@, signs@, trees@, pos) == LRConfig {
                states: st0.take(st0.len() - m).push(next),
                signs: sv.take(sl - m).push(rule@.left),
                trees: trees_view(tr0).take(tr0.len() - m).push(SpecTree::Node(spec_letter_str(rule@.left), reduced_children(trees_view(tr0), mm))),
                pos,
            });
        }
        true
    }
}

proof fn lemma_take_view(s: Seq<Letter>, k: int)
    requires
        0 <= k <= s.len(),
    ensures
        seq_view(s.take(k)) == seq_view(s).take(k),
{
    assert(seq_view(s.take(k)) =~= seq_view(s).take(k));
}

proof fn lemma_take_trees(s: Seq<ParseTree>, k: int)
    requires
        0 <= k <= s.len(),
    ensures
        trees_view(s.take(k)) == trees_view(s).take(k),
{
    assert(trees_view(s.take(k)) =~= trees_view(s).take(k));
}

/// A reduction that matches `i` symbols pops at least `i`, when it pops at all.
proof fn lemma_pops_at_least(right: Seq<SpecLetter>, signs: Seq<SpecLetter>, i: nat)
    requires
        i < right.len(),
        i < signs.len(),
        right[right.len() - 1 - i] == signs[signs.len() - 1 - i],
    ensures
        match pops(right, signs, i) {
            Some(m) => m > i,
            None => true,
        },
    decreases right.len() - i,
{
    let rl = right.len();
    let sl = signs.len();
    if rl - 1 - i != 0 && sl - 1 - i != 0 {
        if right[rl - 1 - (i + 1)] == signs[sl - 1 - (i + 1)] {
            lemma_pops_at_least(right, signs, i + 1);
        }
    }
}

impl LRTable {
    /// Runs the LR driver on the tokens: shift, reduce, accept or fail as the table
    /// says, building the parse tree; the result is the outcome of `lr_outcome`.
    #[verifier::rlimit(40)]
    pub fn analysis_run(&self, token_stream: &TokenStream) -> (res: LRAnalysis)
        ensures
            match res {
                LRAnalysis::Accepted(t) => lr_outcome(self, token_stream) == LROutcome::Accepted(tree_view(t)),
                LRAnalysis::Rejected => lr_outcome(self, token_stream) == LROutcome::Rejected,
                LRAnalysis::Stuck => lr_outcome(self, token_stream) == LROutcome::Stuck,
                LRAnalysis::OutOfSteps => lr_outcome(self, token_stream) == LROutcome::OutOfSteps,
            },
    {
        let toks = &token_stream.stream;
        let ghost tv = tokens_view(toks@);
        let ghost acts = self.action_maps();
        let ghost gts = self.goto_maps();
        let mut states: Vec<usize> = Vec::new();
        states.push(0);
        let mut signs: Vec<Letter> = Vec::new();
        signs.push(Letter::EndSign);
        let mut trees: Vec<ParseTree> = Vec::new();
        let mut i: usize = 0;
        let mut fuel: usize = usize::MAX;
        let mut accepted = false;
        proof {
            assert(config_of(states@, signs@, trees@, 0) =~= lr_start()) by {
                assert(seq_view(signs@) =~= seq![SpecLetter::EndSign]);
                assert(trees_view(trees@) =~= Seq::<SpecTree>::empty());
                assert(states@ =~= seq![0usize]);
            }
        }
        while !accepted && i < toks.len()
            invariant
                tv == tokens_view(toks@),
                toks == &token_stream.stream,
                acts == self.action_maps(),
                gts == self.goto_maps(),
                i <= toks@.len(),
                lr_outcome(self, token_stream) == (if accepted {
                    lr_finish(config_of(states@, signs@, trees@, i as int))
                } else {
                    lr_run(acts, gts, tv, config_of(states@, signs@, trees@, i as int), fuel as nat)
                }),
            decreases fuel, (if accepted { 0int } else { 1int }),
        {
            let ghost c = config_of(states@, signs@, trees@, i as int);
            if fuel == 0 {
                return LRAnalysis::OutOfSteps;
            }
            let cur = match states.last() {
                None => {
                    return LRAnalysis::Stuck;
                },
                Some(x) => *x,
            };
            if cur >= self.action.len() {
                return LRAnalysis::Stuck;
            }
            assert(tv[i as int] == toks@[i as int]@);
            let a = letter_of_token(&toks[i]);
            assert(acts[cur as int] == action_map(self.action@[cur as int]@));
            match action_get(&self.action[cur], &a) {
                None => {
                    return LRAnalysis::Stuck;
                },
                Some(ActionTableItem::Error) => {
                    return LRAnalysis::Rejected;
                },
                Some(ActionTableItem::Accept) => {
                    accepted = true;
                },
                Some(ActionTableItem::Step(n)) => {
                    let ghost sg = signs@;
                    let ghost tr = trees@;
                    let tok = toks[i].clone();
                    states.push(*n);
                    signs.push(a);
                    trees.push(ParseTree::Leaf(tok));
                    proof {
                        crate::grammar::letter::lemma_seq_view_push(sg, a);
                        lemma_trees_push(tr, ParseTree::Leaf(tok));
                        assert(tree_view(ParseTree::Leaf(tok)) == SpecTree::Leaf(tv[i as int]));
                    }
                    i = i + 1;
                    fuel = fuel - 1;
                    proof {
                        assert(lr_step(acts, gts, tv, c) == LRStep::Next(config_of(states@, signs@, trees@, i as int)));
                    }
                },
                Some(ActionTableItem::Reduce(rule)) => {
                    if !self.reduce_on_stacks(&mut states, &mut signs, &mut trees, rule, Ghost(i as int)) {
                        return LRAnalysis::Stuck;
                    }
                    fuel = fuel - 1;
                    proof {
                        assert(lr_step(acts, gts, tv, c) == LRStep::Next(config_of(states@, signs@, trees@, i as int)));
                    }
                },
            }
        }
        let ghost tr = trees@;
        assert(lr_outcome(self, token_stream) == lr_finish(config_of(states@, signs@, trees@, i as int)));
        if trees.len() == 1 {
            let t = trees.pop().unwrap();
            assert(trees_view(tr)[0] == tree_view(t));
            LRAnalysis::Accepted(t)
        } else {
            LRAnalysis::Stuck
        }
    }
}

impl LRTable {
    /// Parses the tokens with the table: the parse tree when the input is accepted,
    /// `None` when it is refused (or the step budget runs out). The table must be one
    /// the driver can follow on this input.
    pub fn analysis(&self, token_stream: &TokenStream) -> (res: Option<ParseTree>)
        requires
            !(lr_outcome(self, token_stream) is Stuck),
        ensures
            match res {
                Some(t) => lr_outcome(self, token_stream) == LROutcome::Accepted(tree_view(t)),
                None => lr_outcome(self, token_stream) is Rejected || lr_outcome(self, token_stream) is OutOfSteps,
            },
    {
        match self.analysis_run(token_stream) {
            LRAnalysis::Accepted(t) => Some(t),
            _ => None,
        }
    }
}


/// One step of a run of the driver: the stacks and the position before it, and the entry
/// of the ACTION table that it followed.
pub struct LRTraceRow {
    pub states: Vec<usize>,
    pub signs: Vec<Letter>,
    pub pos: usize,
    pub action: ActionTableItem,
}

/// The configuration after `k` steps of the driver from `c` (a step that ends the run
/// leaves it as it is).
pub open spec fn lr_iter(
    actions: Seq<Map<SpecLetter, SpecAction>>,
    gotos: Seq<Map<SpecLetter, GotoTableItem>>,
    toks: Seq<SpecToken>,
    c: LRConfig,
    k: nat,
) -> LRConfig
    decreases k,
{
    if k == 0 {
        c
    } else {
        let prev = lr_iter(actions, gotos, toks, c, (k - 1) as nat);
        match lr_step(actions, gotos, toks, prev) {
            LRStep::Next(c2) => c2,
            _ => prev,
        }
    }
}

/// The entry of the ACTION table that the driver follows at `c`.
pub open spec fn lr_entry(actions: Seq<Map<SpecLetter, SpecAction>>, toks: Seq<SpecToken>, c: LRConfig) -> SpecAction {
    actions[c.states.last() as int][token_letter(toks[c.pos])]
}

/// The rows of a trace are the configurations of the run from the start, step by step,
/// with the entries followed; every step but the last goes on, and the run stops after
/// the last: it accepted or refused there, or the input or the step budget ran out.
pub open spec fn lr_trace_ok(t: &LRTable, tokens: &TokenStream, rows: Seq<LRTraceRow>) -> bool {
    let acts = t.action_maps();
    let gts = t.goto_maps();
    let tv = tokens_view(tokens.stream@);
    &&& forall|k: int| 0 <= k < rows.len() ==> {
        let c = #[trigger] lr_iter(acts, gts, tv, lr_start(), k as nat);
        &&& rows[k].states@ == c.states
        &&& seq_view(rows[k].signs@) == c.signs
        &&& rows[k].pos == c.pos
        &&& rows[k].action@ == lr_entry(acts, tv, c)
    }
    &&& forall|k: int| 0 <= k < rows.len() - 1 ==> (#[trigger] lr_step(acts, gts, tv, lr_iter(acts, gts, tv, lr_start(), k as nat))) is Next
    &&& {
        ||| (rows.len() > 0 && (lr_entry(acts, tv, lr_iter(acts, gts, tv, lr_start(), (rows.len() - 1) as nat)) is Accept
            || lr_entry(acts, tv, lr_iter(acts, gts, tv, lr_start(), (rows.len() - 1) as nat)) is Error))
        ||| lr_iter(acts, gts, tv, lr_start(), rows.len()).pos >= tv.len()
        ||| rows.len() == lr_budget()
    }
}

impl LRTable {
    /// Parses the tokens as `analysis` does and lists each step of the run.
    #[verifier::rlimit(60)]
    pub fn analysis_with_process(&self, token_stream: &TokenStream) -> (res: (Option<ParseTree>, Vec<LRTraceRow>))
        requires
            !(lr_outcome(self, token_stream) is Stuck),
        ensures
            match res.0 {
                Some(t) => lr_outcome(self, token_stream) == LROutcome::Accepted(tree_view(t)),
                None => lr_outcome(self, token_stream) is Rejected || lr_outcome(self, token_stream) is OutOfSteps,
            },
            lr_trace_ok(self, token_stream, res.1@),
    {
        let toks = &token_stream.stream;
        let ghost tv = tokens_view(toks@);
        let ghost acts = self.action_maps();
        let ghost gts = self.goto_maps();
        let mut rows: Vec<LRTraceRow> = Vec::new();
        let mut states: Vec<usize> = Vec::new();
        states.push(0);
        let mut signs: Vec<Letter> = Vec::new();
        signs.push(Letter::EndSign);
        let mut trees: Vec<ParseTree> = Vec::new();
        let mut i: usize = 0;
        let mut fuel: usize = usize::MAX;
        let mut accepted = false;
        proof {
            assert(config_of(states@, signs@, trees@, 0) =~= lr_start()) by {
                assert(seq_view(signs@) =~= seq![SpecLetter::EndSign]);
                assert(trees_view(trees@) =~= Seq::<SpecTree>::empty());
                assert(states@ =~= seq![0usize]);
            }
        }
        while !accepted && i < toks.len()
            invariant
                tv == tokens_view(toks@),
                toks == &token_stream.stream,
                acts == self.action_maps(),
                gts == self.goto_maps(),
                i <= toks@.len(),
                !(lr_outcome(self, token_stream) is Stuck),
                lr_outcome(self, token_stream) == (if accepted {
                    lr_finish(config_of(states@, signs@, trees@, i as int))
                } else {
                    lr_run(acts, gts, tv, config_of(states@, signs@, trees@, i as int), fuel as nat)
                }),
                !accepted ==> fuel as nat + rows@.len() == lr_budget(),
                !accepted ==> config_of(states@, signs@, trees@, i as int) == lr_iter(acts, gts, tv, lr_start(), rows@.len() as nat),
                accepted ==> rows@.len() > 0 && lr_entry(acts, tv, lr_iter(acts, gts, tv, lr_start(), (rows@.len() - 1) as nat)) is Accept,
                accepted ==> config_of(states@, signs@, trees@, i as int) == lr_iter(acts, gts, tv, lr_start(), (rows@.len() - 1) as nat),
                forall|k: int| 0 <= k < rows@.len() ==> {
                    let c = #[trigger] lr_iter(acts, gts, tv, lr_start(), k as nat);
                    &&& rows@[k].states@ == c.states
                    &&& seq_view(rows@[k].signs@) == c.signs
                    &&& rows@[k].pos == c.pos
                    &&& rows@[k].action@ == lr_entry(acts, tv, c)
                },
                forall|k: int| 0 <= k < rows@.len() - (if accepted { 1int } else { 0int }) ==>
                    (#[trigger] lr_step(acts, gts, tv, lr_iter(acts, gts, tv, lr_start(), k as nat))) is Next,
            decreases fuel, (if accepted { 0int } else { 1int }),
        {
            let ghost c = config_of(states@, signs@, trees@, i as int);
            let ghost k0 = rows@.len();
            if fuel == 0 {
                return (None, rows);
            }
            let cur = match states.last() {
                None => {
                    return (None, rows);
                },
                Some(x) => *x,
            };
            if cur >= self.action.len() {
                return (None, rows);
            }
            assert(tv[i as int] == toks@[i as int]@);
            let a = letter_of_token(&toks[i]);
            assert(acts[cur as int] == action_map(self.action@[cur as int]@));
            let entry = match action_get(&self.action[cur], &a) {
                None => {
                    return (None, rows);
                },
                Some(e) => e,
            };
            let st_copy = states.clone();
            assert(st_copy@ =~= states@);
            let sg_copy = crate::grammar::letter::clone_letters(&signs);
            rows.push(LRTraceRow { states: st_copy, signs: sg_copy, pos: i, action: entry.clone() });
            proof {
                assert(rows@[k0 as int].action@ == lr_entry(acts, tv, c));
                assert forall|k: int| 0 <= k < rows@.len() implies {
                    let c3 = #[trigger] lr_iter(acts, gts, tv, lr_start(), k as nat);
                    &&& rows@[k].states@ == c3.states
                    &&& seq_view(rows@[k].signs@) == c3.signs
                    &&& rows@[k].pos == c3.pos
                    &&& rows@[k].action@ == lr_entry(acts, tv, c3)
                } by {}
            }
            match entry {
                ActionTableItem::Error => {
                    return (None, rows);
                },
                ActionTableItem::Accept => {
                    accepted = true;
                },
                ActionTableItem::Step(n) => {
                    let ghost sg = signs@;
                    let ghost tr = trees@;
                    let tok = toks[i].clone();
                    states.push(*n);
                    signs.push(a);
                    trees.push(ParseTree::Leaf(tok));
                    proof {
                        crate::grammar::letter::lemma_seq_view_push(sg, a);
                        lemma_trees_push(tr, ParseTree::Leaf(tok));
                        assert(tree_view(ParseTree::Leaf(tok)) == SpecTree::Leaf(tv[i as int]));
                    }
                    i = i + 1;
                    fuel = fuel - 1;
                    proof {
                        assert(lr_step(acts, gts, tv, c) == LRStep::Next(config_of(states@, signs@, trees@, i as int)));
                        assert(lr_iter(acts, gts, tv, lr_start(), (k0 + 1) as nat) == config_of(states@, signs@, trees@, i as int));
                    }
                },
                ActionTableItem::Reduce(rule) => {
                    if !self.reduce_on_stacks(&mut states, &mut signs, &mut trees, rule, Ghost(i as int)) {
                        return (None, rows);
                    }
                    fuel = fuel - 1;
                    proof {
                        assert(lr_step(acts, gts, tv, c) == LRStep::Next(config_of(states@, signs@, trees@, i as int)));
                        assert(lr_iter(acts, gts, tv, lr_start(), (k0 + 1) as nat) == config_of(states@, signs@, trees@, i as int));
                    }
                },
            }
        }
        let ghost tr = trees@;
        assert(lr_outcome(self, token_stream) == lr_finish(config_of(states@, signs@, trees@, i as int)));
        if trees.len() == 1 {
            let t = trees.pop().unwrap();
            assert(trees_view(tr)[0] == tree_view(t));
            (Some(t), rows)
        } else {
            (None, rows)
        }
    }
}

/// Where the stack of symbols ends with the whole right side from position `i` back,
/// a reduction pops the whole right side.
proof fn lemma_pops_suffix(right: Seq<SpecLetter>, signs: Seq<SpecLetter>, i: nat)
    requires
        i < right.len(),
        right.len() < signs.len(),
        forall|j: int| 0 <= j < right.len() ==> #[trigger] right[j] == signs[signs.len() - right.len() + j],
    ensures
        pops(right, signs, i) == Some(right.len()),
    decreases right.len() - i,
{
    let rl = right.len();
    let sl = signs.len();
    assert(right[rl - 1 - i] == signs[sl - rl + (rl - 1 - i)]);
    if rl - 1 - i != 0 {
        lemma_pops_suffix(right, signs, i + 1);
    }
}

/// A reduction by a production `A -> x1 .. xm` (`m > 0`) whose right side lies on top of
/// the symbol stack pops `m` states, symbols and trees, and pushes the GOTO state of `A`
/// over the state left on top, the symbol `A` and a node `A` whose children are the
/// popped trees, the one popped last first; the input stays where it is.
pub proof fn law_lr_reduce(
    actions: Seq<Map<SpecLetter, SpecAction>>,
    gotos: Seq<Map<SpecLetter, GotoTableItem>>,
    toks: Seq<SpecToken>,
    c: LRConfig,
    r: SpecRule,
    n: usize,
)
    requires
        c.states.len() > r.right.len(),
        c.states.last() < actions.len(),
        0 <= c.pos < toks.len(),
        actions[c.states.last() as int].dom().contains(token_letter(toks[c.pos])),
        actions[c.states.last() as int][token_letter(toks[c.pos])] == SpecAction::Reduce(r),
        r.right.len() > 0,
        c.signs.len() > r.right.len(),
        forall|j: int| 0 <= j < r.right.len() ==> #[trigger] r.right[j] == c.signs[c.signs.len() - r.right.len() + j],
        c.trees.len() >= r.right.len(),
        c.states[c.states.len() - 1 - r.right.len()] < gotos.len(),
        gotos[c.states[c.states.len() - 1 - r.right.len()] as int].dom().contains(r.left),
        gotos[c.states[c.states.len() - 1 - r.right.len()] as int][r.left] == GotoTableItem::Step(n),
    ensures
        lr_step(actions, gotos, toks, c) == LRStep::Next(
            LRConfig {
                states: c.states.take(c.states.len() - r.right.len()).push(n),
                signs: c.signs.take(c.signs.len() - r.right.len()).push(r.left),
                trees: c.trees.take(c.trees.len() - r.right.len()).push(
                    SpecTree::Node(spec_letter_str(r.left), c.trees.subrange(c.trees.len() - r.right.len(), c.trees.len() as int).reverse()),
                ),
                pos: c.pos,
            },
        ),
{
    lemma_pops_suffix(r.right, c.signs, 0);
    let m = r.right.len();
    let states = c.states.take(c.states.len() - m);
    assert(states.last() == c.states[c.states.len() - 1 - m]);
}

/// A reduction by an empty production `A -> .` pops nothing: it pushes the GOTO state
/// of `A` over the current state, the symbol `A` and a node `A` without children; the
/// input stays where it is.
pub proof fn law_lr_reduce_empty(
    actions: Seq<Map<SpecLetter, SpecAction>>,
    gotos: Seq<Map<SpecLetter, GotoTableItem>>,
    toks: Seq<SpecToken>,
    c: LRConfig,
    r: SpecRule,
    n: usize,
)
    requires
        c.states.len() > 0,
        c.states.last() < actions.len(),
        0 <= c.pos < toks.len(),
        actions[c.states.last() as int].dom().contains(token_letter(toks[c.pos])),
        actions[c.states.last() as int][token_letter(toks[c.pos])] == SpecAction::Reduce(r),
        r.right == seq![SpecLetter::Empty],
        c.signs.len() > 0,
        !(c.signs.last() is Empty),
        c.states.last() < gotos.len(),
        gotos[c.states.last() as int].dom().contains(r.left),
        gotos[c.states.last() as int][r.left] == GotoTableItem::Step(n),
    ensures
        lr_step(actions, gotos, toks, c) == LRStep::Next(
            LRConfig {
                states: c.states.push(n),
                signs: c.signs.push(r.left),
                trees: c.trees.push(SpecTree::Node(spec_letter_str(r.left), Seq::empty())),
                pos: c.pos,
            },
        ),
{
    assert(pops(r.right, c.signs, 0) == Some(0nat));
    assert(c.states.take(c.states.len() - 0) =~= c.states);
    assert(c.signs.take(c.signs.len() - 0) =~= c.signs);
    assert(c.trees.take(c.trees.len() - 0) =~= c.trees);
    assert(reduced_children(c.trees, 0) =~= Seq::<SpecTree>::empty());
}

/// A shift: on `Step(n)` for the current symbol the driver pushes `n`, the symbol and a
/// leaf of the token, and moves past it; on `Error` it refuses the input; on `Accept`
/// it stops with the configuration as it is.
pub proof fn law_lr_shift_accept_error(
    actions: Seq<Map<SpecLetter, SpecAction>>,
    gotos: Seq<Map<SpecLetter, GotoTableItem>>,
    toks: Seq<SpecToken>,
    c: LRConfig,
)
    requires
        c.states.len() > 0,
        c.states.last() < actions.len(),
        0 <= c.pos < toks.len(),
        actions[c.states.last() as int].dom().contains(token_letter(toks[c.pos])),
    ensures
        actions[c.states.last() as int][token_letter(toks[c.pos])] matches SpecAction::Step(n) ==> lr_step(actions, gotos, toks, c)
            == LRStep::Next(
            LRConfig {
                states: c.states.push(n),
                signs: c.signs.push(token_letter(toks[c.pos])),
                trees: c.trees.push(SpecTree::Leaf(toks[c.pos])),
                pos: c.pos + 1,
            },
        ),
        actions[c.states.last() as int][token_letter(toks[c.pos])] == SpecAction::Error ==> lr_step(actions, gotos, toks, c) == LRStep::Reject,
        actions[c.states.last() as int][token_letter(toks[c.pos])] == SpecAction::Accept ==> lr_step(actions, gotos, toks, c) == LRStep::Accept(c),
{
}

} // verus!

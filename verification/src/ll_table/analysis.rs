use vstd::prelude::*;
use crate::grammar::letter::{Letter, SpecLetter, seq_view};
use crate::grammar::rule::{Rule, SpecRule};
use crate::token::{Token, TokenStream, SpecToken};
use crate::parse_tree::ParseTree;
use crate::lr_table::analysis::{token_letter, tokens_view, lr_budget, letter_of_token};
use crate::utils::assoc::{assoc_map, last_key_index, lemma_assoc_get, lemma_assoc_absent};
use super::{LLTable, LLTableItem, SpecLLItem, ll_row_map, ll_row_view};

verus! {

/// A configuration of the LL driver: the analysis stack and the position in the input.
pub struct LLConfig {
    pub stack: Seq<SpecLetter>,
    pub pos: int,
}

/// What the LL driver does at a configuration.
pub enum SpecLLMove {
    Expand(SpecRule),
    Match,
    Accept,
    Error,
    Idle,
    Stuck,
}

/// What the LL driver did at a step.
#[derive(Debug)]
pub enum LLAction {
    Expand(Rule),
    Match,
    Accept,
    Error,
    Idle,
}

/// How a run of the LL driver ends: the input is used up, it is refused, an entry is
/// missing from the table, or the step budget runs out.
pub enum LLOutcome {
    Finished,
    Rejected,
    Stuck,
    OutOfSteps,
}

/// The production of the empty word `A -> .`.
pub open spec fn empty_rule(r: SpecRule) -> bool {
    r.right.len() == 1 && r.right[0] is Empty
}

impl LLTable {
    /// The table as a map from non terminals to rows.
    pub open spec fn table_map(&self) -> Map<SpecLetter, Map<SpecLetter, SpecLLItem>> {
        assoc_map(self.data@.map_values(|e: (Letter, Vec<(Letter, LLTableItem)>)| (e.0@, ll_row_map(e.1@))))
    }
}

/// The move of the driver at `c`: a non terminal on top is expanded by the entry of the
/// table for the next input symbol, a terminal or the end marker on top must equal it.
pub open spec fn ll_move(tm: Map<SpecLetter, Map<SpecLetter, SpecLLItem>>, toks: Seq<SpecToken>, c: LLConfig) -> SpecLLMove {
    if c.stack.len() == 0 || c.pos < 0 || c.pos >= toks.len() {
        SpecLLMove::Stuck
    } else {
        let top = c.stack.last();
        let a = token_letter(toks[c.pos]);
        match top {
            SpecLetter::NonTerminal(_) => {
                if tm.dom().contains(top) && tm[top].dom().contains(a) {
                    match tm[top][a] {
                        SpecLLItem::Error => SpecLLMove::Error,
                        SpecLLItem::Action(r) => SpecLLMove::Expand(r),
                    }
                } else {
                    SpecLLMove::Stuck
                }
            },
            SpecLetter::Terminal(_) => if top == a { SpecLLMove::Match } else { SpecLLMove::Error },
            SpecLetter::EndSign => if top == a { SpecLLMove::Accept } else { SpecLLMove::Error },
            SpecLetter::Empty => SpecLLMove::Idle,
        }
    }
}

/// The configuration after the move `m` at `c`.
pub open spec fn ll_after(c: LLConfig, m: SpecLLMove) -> LLConfig {
    match m {
        SpecLLMove::Expand(r) => LLConfig {
            stack: if empty_rule(r) { c.stack.drop_last() } else { c.stack.drop_last() + r.right.reverse() },
            pos: c.pos,
        },
        SpecLLMove::Match => LLConfig { stack: c.stack.drop_last(), pos: c.pos + 1 },
        SpecLLMove::Accept => LLConfig { stack: c.stack, pos: c.pos + 1 },
        _ => c,
    }
}

/// The configuration after `k` moves from `c` (a refusal or a missing entry stops it).
pub open spec fn ll_iter(tm: Map<SpecLetter, Map<SpecLetter, SpecLLItem>>, toks: Seq<SpecToken>, c: LLConfig, k: nat) -> LLConfig
    decreases k,
{
    if k == 0 {
        c
    } else {
        let prev = ll_iter(tm, toks, c, (k - 1) as nat);
        ll_after(prev, ll_move(tm, toks, prev))
    }
}

/// A run of the driver from `c` with at most `fuel` moves.
pub open spec fn ll_run(tm: Map<SpecLetter, Map<SpecLetter, SpecLLItem>>, toks: Seq<SpecToken>, c: LLConfig, fuel: nat) -> LLOutcome
    decreases fuel,
{
    if c.pos >= toks.len() {
        LLOutcome::Finished
    } else if fuel == 0 {
        LLOutcome::OutOfSteps
    } else {
        match ll_move(tm, toks, c) {
            SpecLLMove::Error => LLOutcome::Rejected,
            SpecLLMove::Stuck => LLOutcome::Stuck,
            m => ll_run(tm, toks, ll_after(c, m), (fuel - 1) as nat),
        }
    }
}

/// The start configuration: `origin` over the end marker.
pub open spec fn ll_start(origin: SpecLetter) -> LLConfig {
    LLConfig { stack: seq![SpecLetter::EndSign, origin], pos: 0 }
}

/// The outcome of running the driver of `t` on `tokens` from `origin`.
pub open spec fn ll_outcome(t: &LLTable, tokens: &TokenStream, origin: SpecLetter) -> LLOutcome {
    ll_run(t.table_map(), tokens_view(tokens.stream@), ll_start(origin), lr_budget())
}

/// One step of a run: the stack and the position before it, and what the driver did.
pub struct LLTraceRow {
    pub stack: Vec<Letter>,
    pub pos: usize,
    pub action: LLAction,
}

/// The abstract value of a recorded action.
pub open spec fn action_view(a: LLAction) -> SpecLLMove {
    match a {
        LLAction::Expand(r) => SpecLLMove::Expand(r@),
        LLAction::Match => SpecLLMove::Match,
        LLAction::Accept => SpecLLMove::Accept,
        LLAction::Error => SpecLLMove::Error,
        LLAction::Idle => SpecLLMove::Idle,
    }
}

/// The rows of a trace are the configurations of the run from the start, move by move,
/// with the moves made; every move but the last goes on, and the run stops after the
/// last: it refused there, or the input or the step budget ran out.
pub open spec fn ll_trace_ok(t: &LLTable, tokens: &TokenStream, origin: SpecLetter, rows: Seq<LLTraceRow>) -> bool {
    let tm = t.table_map();
    let tv = tokens_view(tokens.stream@);
    &&& forall|k: int| 0 <= k < rows.len() ==> {
        let c = #[trigger] ll_iter(tm, tv, ll_start(origin), k as nat);
        &&& seq_view(rows[k].stack@) == c.stack
        &&& rows[k].pos == c.pos
        &&& action_view(rows[k].action) == ll_move(tm, tv, c)
    }
    &&& forall|k: int| 0 <= k < rows.len() - 1 ==> !(#[trigger] ll_move(tm, tv, ll_iter(tm, tv, ll_start(origin), k as nat)) is Error)
    &&& {
        ||| (rows.len() > 0 && ll_move(tm, tv, ll_iter(tm, tv, ll_start(origin), (rows.len() - 1) as nat)) is Error)
        ||| ll_iter(tm, tv, ll_start(origin), rows.len()).pos >= tv.len()
        ||| rows.len() == lr_budget()
    }
}

/// The LL driver, one move at a time, on input left (`c.pos` within `toks`):
/// a terminal on top is matched only by an equal input symbol, which both leave; a
/// different symbol refuses the input. The end marker on top is matched by the end of
/// the input. A non terminal on top is replaced by the right side of the production the
/// table gives for it and the input symbol, last symbol lowest (by nothing for `A -> .`),
/// and refused where the table holds an error there.
pub proof fn law_ll_moves(tm: Map<SpecLetter, Map<SpecLetter, SpecLLItem>>, toks: Seq<SpecToken>, c: LLConfig, fuel: nat)
    requires
        c.stack.len() > 0,
        0 <= c.pos < toks.len(),
    ensures
        c.stack.last() is Terminal && c.stack.last() == token_letter(toks[c.pos]) ==> ll_run(tm, toks, c, fuel + 1) == ll_run(
            tm,
            toks,
            LLConfig { stack: c.stack.drop_last(), pos: c.pos + 1 },
            fuel,
        ),
        c.stack.last() is Terminal && c.stack.last() != token_letter(toks[c.pos]) ==> ll_run(tm, toks, c, fuel + 1) == LLOutcome::Rejected,
        c.stack.last() is EndSign && c.stack.last() == token_letter(toks[c.pos]) ==> ll_run(tm, toks, c, fuel + 1) == ll_run(
            tm,
            toks,
            LLConfig { stack: c.stack, pos: c.pos + 1 },
            fuel,
        ),
        c.stack.last() is EndSign && c.stack.last() != token_letter(toks[c.pos]) ==> ll_run(tm, toks, c, fuel + 1) == LLOutcome::Rejected,
        c.stack.last() is NonTerminal && tm.dom().contains(c.stack.last()) && tm[c.stack.last()].dom().contains(token_letter(toks[c.pos]))
            ==> match tm[c.stack.last()][token_letter(toks[c.pos])] {
            SpecLLItem::Error => ll_run(tm, toks, c, fuel + 1) == LLOutcome::Rejected,
            SpecLLItem::Action(r) => ll_run(tm, toks, c, fuel + 1) == ll_run(
                tm,
                toks,
                LLConfig {
                    stack: if r.right.len() == 1 && r.right[0] is Empty { c.stack.drop_last() } else { c.stack.drop_last() + r.right.reverse() },
                    pos: c.pos,
                },
                fuel,
            ),
        },
{
}

impl LLTable {
    /// The entry of the table for the non terminal `x` and the symbol `a`.
    pub fn lookup(&self, x: &Letter, a: &Letter) -> (res: Option<&LLTableItem>)
        ensures
            match res {
                Some(v) => self.table_map().dom().contains(x@) && self.table_map()[x@].dom().contains(a@) && self.table_map()[x@][a@] == v@,
                None => !(self.table_map().dom().contains(x@) && self.table_map()[x@].dom().contains(a@)),
            },
    {
        let ghost vw = self.data@.map_values(|e: (Letter, Vec<(Letter, LLTableItem)>)| (e.0@, ll_row_map(e.1@)));
        match last_key_index(&self.data, x) {
            None => {
                proof {
                    assert forall|j: int| 0 <= j < vw.len() implies (#[trigger] vw[j]).0 != x@ by {
                        assert(vw[j].0 == self.data@[j].0@);
                    }
                    lemma_assoc_absent(vw, x@);
                }
                None
            },
            Some(i) => {
                proof {
                    assert forall|j: int| i < j < vw.len() implies (#[trigger] vw[j]).0 != vw[i as int].0 by {
                        assert(vw[j].0 == self.data@[j].0@);
                    }
                    lemma_assoc_get(vw, i as int);
                    assert(self.table_map()[x@] == ll_row_map(self.data@[i as int].1@));
                }
                let row = &self.data[i].1;
                let ghost rv = ll_row_view(row@);
                match last_key_index(row, a) {
                    None => {
                        proof {
                            assert forall|j: int| 0 <= j < rv.len() implies (#[trigger] rv[j]).0 != a@ by {
                                assert(rv[j].0 == row@[j].0@);
                            }
                            lemma_assoc_absent(rv, a@);
                        }
                        None
                    },
                    Some(k) => {
                        proof {
                            assert forall|j: int| k < j < rv.len() implies (#[trigger] rv[j]).0 != rv[k as int].0 by {
                                assert(rv[j].0 == row@[j].0@);
                            }
                            lemma_assoc_get(rv, k as int);
                        }
                        Some(&row[k].1)
                    },
                }
            },
        }
    }
}


/// Pushes the right side of `r` onto `stack`, last symbol first.
fn push_reversed(stack: &mut Vec<Letter>, r: &Rule)
    ensures
        seq_view(final(stack)@) == seq_view(old(stack)@) + r@.right.reverse(),
{
    let ghost base = seq_view(stack@);
    let ghost rv = r@.right;
    let mut j = r.right.len();
    assert(rv.subrange(j as int, rv.len() as int).reverse() =~= Seq::<SpecLetter>::empty());
    assert(seq_view(stack@) =~= base + rv.subrange(j as int, rv.len() as int).reverse());
    while j > 0
        invariant
            j <= r.right@.len(),
            rv == r@.right,
            rv.len() == r.right@.len(),
            seq_view(stack@) == base + rv.subrange(j as int, rv.len() as int).reverse(),
        decreases j,
    {
        j = j - 1;
        let ghost s0 = stack@;
        stack.push(r.right[j].clone());
        proof {
            crate::grammar::letter::lemma_seq_view_push(s0, r.right@[j as int]);
            assert(rv[j as int] == r.right@[j as int]@);
            assert(rv.subrange(j as int, rv.len() as int).reverse() =~= rv.subrange(j + 1, rv.len() as int).reverse().push(rv[j as int]));
        }
    }
    assert(rv.subrange(0, rv.len() as int) =~= rv);
}

impl LLTable {
    /// Runs the LL driver on the tokens from `origin`, listing each move; the first part
    /// tells whether the driver found every entry it needed (else the list stops there).
    #[verifier::rlimit(60)]
    pub fn analysis_checked(&self, token_stream: &TokenStream, origin: Letter) -> (res: (bool, Vec<LLTraceRow>))
        ensures
            res.0 == !(ll_outcome(self, token_stream, origin@) is Stuck),
            res.0 ==> ll_trace_ok(self, token_stream, origin@, res.1@),
    {
        let toks = &token_stream.stream;
        let ghost tv = tokens_view(toks@);
        let ghost tm = self.table_map();
        let ghost org = origin@;
        let mut rows: Vec<LLTraceRow> = Vec::new();
        let mut stack: Vec<Letter> = Vec::new();
        stack.push(Letter::EndSign);
        stack.push(origin.clone());
        let mut i: usize = 0;
        let mut fuel: usize = usize::MAX;
        assert(seq_view(stack@) =~= ll_start(org).stack);
        while i < toks.len()
            invariant
                tv == tokens_view(toks@),
                toks == &token_stream.stream,
                tm == self.table_map(),
                org == origin@,
                i <= toks@.len(),
                ll_outcome(self, token_stream, org) == ll_run(tm, tv, LLConfig { stack: seq_view(stack@), pos: i as int }, fuel as nat),
                fuel as nat + rows@.len() == lr_budget(),
                (LLConfig { stack: seq_view(stack@), pos: i as int }) == ll_iter(tm, tv, ll_start(org), rows@.len() as nat),
                forall|k: int| 0 <= k < rows@.len() ==> {
                    let c = #[trigger] ll_iter(tm, tv, ll_start(org), k as nat);
                    &&& seq_view(rows@[k].stack@) == c.stack
                    &&& rows@[k].pos == c.pos
                    &&& action_view(rows@[k].action) == ll_move(tm, tv, c)
                },
                forall|k: int| 0 <= k < rows@.len() ==> !(#[trigger] ll_move(tm, tv, ll_iter(tm, tv, ll_start(org), k as nat)) is Error),
            decreases fuel,
        {
            let ghost c = LLConfig { stack: seq_view(stack@), pos: i as int };
            let ghost k0 = rows@.len();
            let pos0 = i;
            if fuel == 0 {
                assert(rows@.len() == lr_budget());
                assert(ll_trace_ok(self, token_stream, org, rows@));
                return (true, rows);
            }
            if stack.len() == 0 {
                return (false, rows);
            }
            let top = stack[stack.len() - 1].clone();
            assert(top@ == c.stack.last());
            assert(tv[i as int] == toks@[i as int]@);
            let a = letter_of_token(&toks[i]);
            let snapshot = crate::grammar::letter::clone_letters(&stack);
            let action: LLAction;
            if top.is_non_terminal() {
                match self.lookup(&top, &a) {
                    None => {
                        return (false, rows);
                    },
                    Some(LLTableItem::Error) => {
                        action = LLAction::Error;
                    },
                    Some(LLTableItem::Action(r)) => {
                        action = LLAction::Expand(r.clone());
                    },
                }
            } else if top.is_terminal() {
                if top == a {
                    action = LLAction::Match;
                } else {
                    action = LLAction::Error;
                }
            } else if top.is_end_sign() {
                if top == a {
                    action = LLAction::Accept;
                } else {
                    action = LLAction::Error;
                }
            } else {
                action = LLAction::Idle;
            }
            assert(action_view(action) == ll_move(tm, tv, c));
            let is_error = match &action { LLAction::Error => true, _ => false };
            match &action {
                LLAction::Expand(r) => {
                    stack.pop();
                    if !r.is_empty() {
                        push_reversed(&mut stack, r);
                    }
                    proof {
                        let s0 = seq_view(snapshot@);
                        assert(seq_view(snapshot@.drop_last()) =~= s0.drop_last());
                    }
                },
                LLAction::Match => {
                    stack.pop();
                    i = i + 1;
                    proof {
                        assert(seq_view(stack@) =~= seq_view(snapshot@).drop_last());
                    }
                },
                LLAction::Accept => {
                    i = i + 1;
                },
                _ => {},
            }
            let ghost rows0 = rows@;
            rows.push(LLTraceRow { stack: snapshot, pos: pos0, action });
            proof {
                assert forall|k: int| 0 <= k < rows@.len() implies {
                    let c3 = #[trigger] ll_iter(tm, tv, ll_start(org), k as nat);
                    &&& seq_view(rows@[k].stack@) == c3.stack
                    &&& rows@[k].pos == c3.pos
                    &&& action_view(rows@[k].action) == ll_move(tm, tv, c3)
                } by {
                    if k < k0 {
                        assert(rows@[k] == rows0[k]);
                    }
                }
            }
            if is_error {
                assert(ll_move(tm, tv, ll_iter(tm, tv, ll_start(org), (rows@.len() - 1) as nat)) is Error);
                return (true, rows);
            }
            fuel = fuel - 1;
            proof {
                assert(ll_iter(tm, tv, ll_start(org), (k0 + 1) as nat) == LLConfig { stack: seq_view(stack@), pos: i as int });
            }
        }
        (true, rows)
    }

    /// Runs the LL driver on the tokens from `origin`, listing each move; no parse tree is
    /// built, so the first part is always `None`.
    pub fn analysis_with_process(&self, token_stream: &TokenStream, origin: Letter) -> (res: (Option<ParseTree>, Vec<LLTraceRow>))
        requires
            !(ll_outcome(self, token_stream, origin@) is Stuck),
        ensures
            res.0 is None,
            ll_trace_ok(self, token_stream, origin@, res.1@),
    {
        let (_, rows) = self.analysis_checked(token_stream, origin);
        (None, rows)
    }
}
} // verus!

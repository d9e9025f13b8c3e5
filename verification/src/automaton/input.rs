use vstd::prelude::*;
use crate::grammar::letter::{Letter, SpecLetter, seq_view};
use crate::grammar::rule::str_chars;
use crate::utils::text::{words, lines, parse_number, char_seqs, split_words, split_lines, parse_usize};
use crate::optimization::program::chars_string;
use super::dfa::{DFA, edges_view};
use super::nfa::NFA;

verus! {

/// A symbol of an automaton file: `.` for the empty word where spontaneous transitions
/// are allowed, any other word a terminal.
pub open spec fn fa_letter(w: Seq<char>, allow_empty: bool) -> SpecLetter {
    if allow_empty && w == seq!['.'] { SpecLetter::Empty } else { SpecLetter::Terminal(w) }
}

/// The transitions on a line of an automaton file: a count, then that many pairs of a
/// symbol and a target state.
pub open spec fn transition_line(line: Seq<char>, allow_empty: bool) -> Option<Seq<(SpecLetter, usize)>> {
    let ws = words(line);
    if ws.len() == 0 {
        None
    } else {
        match parse_number(ws[0]) {
            None => None,
            Some(c) => if 2 * c + 1 > ws.len() {
                None
            } else if forall|j: int| 0 <= j < c ==> #[trigger] parse_number(ws[2 * j + 2]) is Some {
                Some(Seq::new(c as nat, |j: int| (fa_letter(ws[2 * j + 1], allow_empty), parse_number(ws[2 * j + 2])->0)))
            } else {
                None
            },
        }
    }
}

/// An automaton file: the start state, the final states, the alphabet (terminals), then
/// a line of transitions per state.
pub struct SpecFA {
    pub start: usize,
    pub end: Seq<usize>,
    pub letters: Seq<SpecLetter>,
    pub edges: Seq<Seq<(SpecLetter, usize)>>,
}

/// The numbers that the words of `s` write.
pub open spec fn word_numbers(s: Seq<char>) -> Option<Seq<usize>> {
    let ws = words(s);
    if forall|i: int| 0 <= i < ws.len() ==> #[trigger] parse_number(ws[i]) is Some {
        Some(Seq::new(ws.len(), |i: int| parse_number(ws[i])->0))
    } else {
        None
    }
}

/// What an automaton file says; `None` where it does not read.
pub open spec fn fa_text(ls: Seq<Seq<char>>, allow_empty: bool) -> Option<SpecFA> {
    if ls.len() < 3 {
        None
    } else {
        match (parse_number(ls[0]), word_numbers(ls[1])) {
            (Some(start), Some(end)) => {
                if forall|i: int| 3 <= i < ls.len() ==> #[trigger] transition_line(ls[i], allow_empty) is Some {
                    Some(SpecFA {
                        start,
                        end,
                        letters: words(ls[2]).map_values(|w: Seq<char>| SpecLetter::Terminal(w)),
                        edges: Seq::new((ls.len() - 3) as nat, |i: int| transition_line(ls[i + 3], allow_empty)->0),
                    })
                } else {
                    None
                }
            },
            _ => None,
        }
    }
}

/// Reads the numbers of the words of `s`.
fn read_word_numbers(s: &Vec<char>) -> (res: Option<Vec<usize>>)
    ensures
        match res {
            Some(v) => word_numbers(s@) == Some(v@),
            None => word_numbers(s@) is None,
        },
{
    let ws = split_words(s);
    let ghost wv = char_seqs(ws@);
    let mut v: Vec<usize> = Vec::new();
    for i in 0..ws.len()
        invariant
            wv == char_seqs(ws@),
            wv == words(s@),
            v@.len() == i,
            forall|k: int| 0 <= k < i ==> #[trigger] parse_number(wv[k]) is Some,
            forall|k: int| 0 <= k < i ==> v@[k] == parse_number(wv[k])->0,
    {
        assert(wv[i as int] == ws@[i as int]@);
        match parse_usize(&ws[i]) {
            None => {
                assert(!(parse_number(wv[i as int]) is Some));
                return None;
            },
            Some(t) => {
                v.push(t);
            },
        }
    }
    assert(v@ =~= Seq::new(wv.len(), |i: int| parse_number(wv[i])->0));
    Some(v)
}

/// Whether the characters are exactly `.`.
fn is_dot(w: &Vec<char>) -> (res: bool)
    ensures
        res == (w@ == seq!['.']),
{
    if w.len() == 1 && w[0] == '.' {
        assert(w@ =~= seq!['.']);
        true
    } else {
        false
    }
}

/// Reads a line of transitions.
fn read_transitions(line: &Vec<char>, allow_empty: bool) -> (res: Option<Vec<(Letter, usize)>>)
    ensures
        match res {
            Some(v) => transition_line(line@, allow_empty) == Some(edges_view(v@)),
            None => transition_line(line@, allow_empty) is None,
        },
{
    let ws = split_words(line);
    let ghost wv = char_seqs(ws@);
    if ws.len() == 0 {
        return None;
    }
    assert(wv[0] == ws@[0]@);
    let c = match parse_usize(&ws[0]) {
        None => {
            return None;
        },
        Some(c) => c,
    };
    if c > (ws.len() - 1) / 2 {
        return None;
    }
    let mut v: Vec<(Letter, usize)> = Vec::new();
    for j in 0..c
        invariant
            wv == char_seqs(ws@),
            wv == words(line@),
            parse_number(wv[0]) == Some(c),
            2 * c + 1 <= ws@.len(),
            v@.len() == j,
            forall|k: int| 0 <= k < j ==> #[trigger] parse_number(wv[2 * k + 2]) is Some,
            forall|k: int| 0 <= k < j ==> edges_view(v@)[k] == (fa_letter(wv[2 * k + 1], allow_empty), parse_number(wv[2 * k + 2])->0),
    {
        assert(wv[2 * j + 1] == ws@[2 * j + 1]@);
        assert(wv[2 * j + 2] == ws@[2 * j + 2]@);
        let to = match parse_usize(&ws[2 * j + 2]) {
            None => {
                assert(!(parse_number(wv[2 * j + 2]) is Some));
                return None;
            },
            Some(t) => t,
        };
        let letter = if allow_empty && is_dot(&ws[2 * j + 1]) {
            Letter::Empty
        } else {
            Letter::Terminal(chars_string(&ws[2 * j + 1]))
        };
        let ghost v0 = v@;
        v.push((letter, to));
        proof {
            assert forall|k: int| 0 <= k < j + 1 implies edges_view(v@)[k] == (fa_letter(wv[2 * k + 1], allow_empty), parse_number(wv[2 * k + 2])->0) by {
                if k < j {
                    assert(v@[k] == v0[k]);
                    assert(edges_view(v0)[k] == (fa_letter(wv[2 * k + 1], allow_empty), parse_number(wv[2 * k + 2])->0));
                }
            }
        }
    }
    assert(edges_view(v@) =~= Seq::new(c as nat, |j: int| (fa_letter(wv[2 * j + 1], allow_empty), parse_number(wv[2 * j + 2])->0)));
    Some(v)
}

/// The parts of an automaton file.
fn read_fa(text: &str, allow_empty: bool) -> (res: Option<(usize, Vec<usize>, Vec<Letter>, Vec<Vec<(Letter, usize)>>)>)
    ensures
        match res {
            Some((start, end, letters, edges)) => fa_text(lines(text@), allow_empty) == Some(SpecFA {
                start,
                end: end@,
                letters: seq_view(letters@),
                edges: edges@.map_values(|r: Vec<(Letter, usize)>| edges_view(r@)),
            }),
            None => fa_text(lines(text@), allow_empty) is None,
        },
{
    let cs = str_chars(text);
    let ls = split_lines(&cs);
    let ghost lv = char_seqs(ls@);
    if ls.len() < 3 {
        return None;
    }
    assert(lv[0] == ls@[0]@ && lv[1] == ls@[1]@ && lv[2] == ls@[2]@);
    let start = match parse_usize(&ls[0]) {
        None => {
            return None;
        },
        Some(s) => s,
    };
    let end = match read_word_numbers(&ls[1]) {
        None => {
            return None;
        },
        Some(e) => e,
    };
    let ws = split_words(&ls[2]);
    let mut letters: Vec<Letter> = Vec::new();
    for k in 0..ws.len()
        invariant
            seq_view(letters@) == char_seqs(ws@).take(k as int).map_values(|w: Seq<char>| SpecLetter::Terminal(w)),
    {
        let ghost l0 = letters@;
        letters.push(Letter::Terminal(chars_string(&ws[k])));
        proof {
            crate::grammar::letter::lemma_seq_view_push(l0, letters@.last());
            assert(char_seqs(ws@).take(k + 1).map_values(|w: Seq<char>| SpecLetter::Terminal(w)) =~=
                char_seqs(ws@).take(k as int).map_values(|w: Seq<char>| SpecLetter::Terminal(w)).push(SpecLetter::Terminal(ws@[k as int]@)));
        }
    }
    assert(char_seqs(ws@).take(ws@.len() as int) =~= char_seqs(ws@));
    let mut edges: Vec<Vec<(Letter, usize)>> = Vec::new();
    for i in 3..ls.len()
        invariant
            lv == char_seqs(ls@),
            lv == lines(text@),
            3 <= ls@.len(),
            edges@.len() == i - 3,
            forall|k: int| 3 <= k < i ==> #[trigger] transition_line(lv[k], allow_empty) is Some,
            forall|k: int| 0 <= k < i - 3 ==> transition_line(lv[k + 3], allow_empty) == Some(edges_view((#[trigger] edges@[k])@)),
    {
        assert(lv[i as int] == ls@[i as int]@);
        let row = match read_transitions(&ls[i], allow_empty) {
            None => {
                return None;
            },
            Some(r) => r,
        };
        let ghost e0 = edges@;
        edges.push(row);
        proof {
            assert forall|k: int| 0 <= k < i + 1 - 3 implies transition_line(lv[k + 3], allow_empty) == Some(edges_view((#[trigger] edges@[k])@)) by {
                if k < i - 3 { assert(edges@[k] == e0[k]); }
            }
        }
    }
    proof {
        assert(edges@.map_values(|r: Vec<(Letter, usize)>| edges_view(r@)) =~= Seq::new((lv.len() - 3) as nat, |i: int| transition_line(lv[i + 3], allow_empty)->0));
    }
    Some((start, end, letters, edges))
}

impl NFA {
    /// Reads a nondeterministic automaton: the start state, the final states, the
    /// alphabet, then a line of transitions per state (`.` for the empty word); `None`
    /// where the text does not read so.
    pub fn from_text(text: &str) -> (res: Option<NFA>)
        ensures
            match res {
                Some(a) => fa_text(lines(text@), true) == Some(SpecFA {
                    start: a.start,
                    end: a.end@,
                    letters: seq_view(a.letters@),
                    edges: a.rows(),
                }),
                None => fa_text(lines(text@), true) is None,
            },
    {
        match read_fa(text, true) {
            None => None,
            Some((start, end, letters, edges)) => Some(NFA { start, end, letters, edges }),
        }
    }
}

impl DFA {
    /// Reads a deterministic automaton: the start state, the final states, the alphabet,
    /// then a line of transitions per state; `None` where the text does not read so.
    pub fn from_text(text: &str) -> (res: Option<DFA>)
        ensures
            match res {
                Some(a) => fa_text(lines(text@), false) == Some(SpecFA {
                    start: a.start,
                    end: a.end@,
                    letters: seq_view(a.letters@),
                    edges: a.edges@.map_values(|r: Vec<(Letter, usize)>| edges_view(r@)),
                }),
                None => fa_text(lines(text@), false) is None,
            },
    {
        match read_fa(text, false) {
            None => None,
            Some((start, end, letters, edges)) => Some(DFA { start, end, letters, edges }),
        }
    }
}

} // verus!

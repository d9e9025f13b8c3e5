use vstd::prelude::*;
use super::letter::{Letter, SpecLetter};
use super::rule::{Rule, SpecRule, rules_view, split_on, split_chars, str_chars, spec_parse_right};
use crate::utils::text::{trim, lines, char_seqs, trim_chars, split_lines};
use vstd::string::*;
use crate::optimization::program::chars_string;

verus! {

/// The productions of a line `left right1|right2|...`; `None` where the line does not
/// have exactly one space.
pub open spec fn line_rules(l: Seq<char>) -> Option<Seq<SpecRule>> {
    if split_on(l, ' ').len() != 2 {
        None
    } else {
        Some(split_on(split_on(l, ' ')[1], '|').map_values(|r: Seq<char>|
            SpecRule { left: SpecLetter::NonTerminal(split_on(l, ' ')[0]), right: spec_parse_right(r) }))
    }
}

/// The productions of the lines of a grammar file, empty lines skipped; `None` where a
/// line does not read.
pub open spec fn file_rules(ls: Seq<Seq<char>>) -> Option<Seq<SpecRule>>
    decreases ls.len(),
{
    if ls.len() == 0 {
        Some(seq![])
    } else {
        match file_rules(ls.drop_last()) {
            None => None,
            Some(r) => if ls.last().len() == 0 {
                Some(r)
            } else {
                match line_rules(ls.last()) {
                    None => None,
                    Some(x) => Some(r + x),
                }
            },
        }
    }
}

/// The start symbol of a grammar file: the text before the first space of its first
/// non-empty line, or the empty word if there is none.
pub open spec fn file_origin(ls: Seq<Seq<char>>) -> SpecLetter
    decreases ls.len(),
{
    if ls.len() == 0 {
        SpecLetter::Empty
    } else if ls[0].len() == 0 {
        file_origin(ls.drop_first())
    } else {
        SpecLetter::NonTerminal(split_on(ls[0], ' ')[0])
    }
}

proof fn lemma_file_origin_skip(ls: Seq<Seq<char>>, i: int)
    requires
        0 <= i <= ls.len(),
        forall|k: int| 0 <= k < i ==> (#[trigger] ls[k]).len() == 0,
    ensures
        file_origin(ls) == file_origin(ls.skip(i)),
    decreases i,
{
    if i > 0 {
        assert(ls.drop_first().skip(i - 1) =~= ls.skip(i));
        assert forall|k: int| 0 <= k < i - 1 implies (#[trigger] ls.drop_first()[k]).len() == 0 by {
            assert(ls.drop_first()[k] == ls[k + 1]);
        }
        lemma_file_origin_skip(ls.drop_first(), i - 1);
    } else {
        assert(ls.skip(0) =~= ls);
    }
}

proof fn lemma_file_rules_none(ls: Seq<Seq<char>>, i: int)
    requires
        0 <= i <= ls.len(),
        file_rules(ls.take(i)) is None,
    ensures
        file_rules(ls) is None,
    decreases ls.len(),
{
    if i < ls.len() {
        assert(ls.drop_last().take(i) =~= ls.take(i));
        lemma_file_rules_none(ls.drop_last(), i);
    } else {
        assert(ls.take(i) =~= ls);
    }
}

/// Reads a grammar file: a production line `left right1|right2|...` per non-empty line,
/// the start symbol the left side of the first; `None` where a line does not read.
pub fn grammar_rules_from_text(text: &str) -> (res: Option<(Vec<Rule>, Letter)>)
    ensures
        match res {
            Some((rules, origin)) => file_rules(lines(text@)) == Some(rules_view(rules@)) && origin@ == file_origin(lines(text@)),
            None => file_rules(lines(text@)) is None,
        },
{
    let cs = str_chars(text);
    let ls = split_lines(&cs);
    let ghost lv = char_seqs(ls@);
    let mut rules: Vec<Rule> = Vec::new();
    let mut origin = Letter::Empty;
    let mut first = true;
    assert(lv.take(0) =~= Seq::<Seq<char>>::empty());
    assert(rules_view(rules@) =~= Seq::<SpecRule>::empty());
    for i in 0..ls.len()
        invariant
            lv == char_seqs(ls@),
            lv == lines(text@),
            file_rules(lv.take(i as int)) == Some(rules_view(rules@)),
            first ==> forall|k: int| 0 <= k < i ==> (#[trigger] lv[k]).len() == 0,
            first ==> origin@ == SpecLetter::Empty,
            !first ==> origin@ == file_origin(lv),
    {
        assert(lv.take(i + 1).drop_last() =~= lv.take(i as int));
        assert(lv.take(i + 1).last() == ls@[i as int]@);
        assert(lv[i as int] == ls@[i as int]@);
        if ls[i].len() != 0 {
            let pieces = split_chars(&ls[i], ' ');
            proof {
                super::rule::lemma_split_on_nonempty(ls@[i as int]@, ' ');
            }
            assert(pieces@.map_values(|p: Vec<char>| p@)[0] == pieces@[0]@);
            if first {
                first = false;
                origin = Letter::NonTerminal(chars_string(&pieces[0]));
                proof {
                    lemma_file_origin_skip(lv, i as int);
                    assert(lv.skip(i as int)[0] == lv[i as int]);
                }
            }
            let line = chars_string(&ls[i]);
            match Rule::rules_from_str(line.as_str()) {
                Err(_) => {
                    proof {
                        lemma_file_rules_none(lv, i + 1);
                    }
                    return None;
                },
                Ok(more) => {
                    let ghost r0 = rules_view(rules@);
                    let mut more = more;
                    rules.append(&mut more);
                    proof {
                        assert(rules_view(rules@) =~= r0 + line_rules(lv[i as int])->0);
                    }
                },
            }
        }
    }
    assert(lv.take(ls@.len() as int) =~= lv);
    proof {
        if first {
            lemma_file_origin_skip(lv, lv.len() as int);
        }
    }
    Some((rules, origin))
}


/// `s` begins with `p`.
pub open spec fn starts_with(s: Seq<char>, p: Seq<char>) -> bool {
    s.len() >= p.len() && s.take(p.len() as int) == p
}

/// `s` with every leading copy of `p` removed, as `str::trim_start_matches` does.
pub open spec fn strip_all(s: Seq<char>, p: Seq<char>) -> Seq<char>
    decreases s.len(),
{
    if p.len() > 0 && starts_with(s, p) {
        strip_all(s.skip(p.len() as int), p)
    } else {
        s
    }
}

/// A symbol of an advanced grammar file: `@type` a terminal, `EMPTY` the empty word,
/// anything else a non terminal.
pub open spec fn adv_symbol(w: Seq<char>) -> SpecLetter {
    if starts_with(w, seq!['@']) {
        SpecLetter::Terminal(strip_all(w, seq!['@']))
    } else if w == seq!['E', 'M', 'P', 'T', 'Y'] {
        SpecLetter::Empty
    } else {
        SpecLetter::NonTerminal(w)
    }
}

/// The symbols of the non-empty pieces.
pub open spec fn adv_symbols(ps: Seq<Seq<char>>) -> Seq<SpecLetter>
    decreases ps.len(),
{
    if ps.len() == 0 {
        seq![]
    } else if ps.last().len() == 0 {
        adv_symbols(ps.drop_last())
    } else {
        adv_symbols(ps.drop_last()).push(adv_symbol(ps.last()))
    }
}

/// The right side written on a production line: its pieces between single spaces.
pub open spec fn adv_right(line: Seq<char>) -> Seq<SpecLetter> {
    adv_symbols(split_on(trim(line), ' '))
}

/// The name of a rule set's header line.
pub open spec fn header_name(h: Seq<char>) -> Seq<char> {
    trim(strip_all(h, seq!['O', 'R', 'I', 'G', 'I', 'N']))
}

/// The state of the reader of an advanced grammar file: the lines of the rule set being
/// read (its header first), the productions so far and the start symbol.
pub struct AdvState {
    pub item: Seq<Seq<char>>,
    pub rules: Seq<SpecRule>,
    pub origin: SpecLetter,
}

/// The productions of the rule set in `item`: one per line after the header.
pub open spec fn item_rules(item: Seq<Seq<char>>) -> Seq<SpecRule> {
    item.skip(1).map_values(|l: Seq<char>| SpecRule { left: SpecLetter::NonTerminal(header_name(item[0])), right: adv_right(l) })
}

/// Reads one line: empty and comment lines are skipped, an indented line belongs to the
/// rule set being read, and a line that is not indented starts the next rule set once
/// the current one holds more than its header.
pub open spec fn adv_step(st: AdvState, line: Seq<char>) -> AdvState {
    if line.len() == 0 || starts_with(trim(line), seq!['/', '/']) {
        st
    } else if !starts_with(line, seq![' ']) {
        if st.item.len() <= 1 {
            AdvState { item: st.item.push(line), ..st }
        } else {
            AdvState {
                item: seq![line],
                rules: st.rules + item_rules(st.item),
                origin: if starts_with(st.item[0], seq!['O', 'R', 'I', 'G', 'I', 'N']) {
                    SpecLetter::NonTerminal(header_name(st.item[0]))
                } else {
                    st.origin
                },
            }
        }
    } else {
        AdvState { item: st.item.push(line), ..st }
    }
}

/// The reader's state after the lines.
pub open spec fn adv_run(ls: Seq<Seq<char>>) -> AdvState
    decreases ls.len(),
{
    if ls.len() == 0 {
        AdvState { item: seq![], rules: seq![], origin: SpecLetter::Empty }
    } else {
        adv_step(adv_run(ls.drop_last()), ls.last())
    }
}

/// The end marker line of an advanced grammar file.
pub open spec fn end_line() -> Seq<char> {
    seq!['#', '#', '#', '#']
}

/// Whether `s` begins with `p`.
fn begins_with(s: &Vec<char>, p: &Vec<char>) -> (res: bool)
    ensures
        res == starts_with(s@, p@),
{
    if s.len() < p.len() {
        return false;
    }
    let mut i: usize = 0;
    while i < p.len()
        invariant
            p@.len() <= s@.len(),
            i <= p@.len(),
            forall|k: int| 0 <= k < i ==> s@[k] == p@[k],
        decreases p@.len() - i,
    {
        if s[i] != p[i] {
            assert(s@.take(p@.len() as int)[i as int] != p@[i as int]);
            return false;
        }
        i = i + 1;
    }
    assert(s@.take(p@.len() as int) =~= p@);
    true
}

/// `s` with every leading copy of `p` removed.
fn strip_prefixes(s: &Vec<char>, p: &Vec<char>) -> (res: Vec<char>)
    ensures
        res@ == strip_all(s@, p@),
{
    let mut cur: Vec<char> = s.clone();
    assert(cur@ =~= s@);
    while p.len() > 0 && begins_with(&cur, p)
        invariant
            strip_all(cur@, p@) == strip_all(s@, p@),
        decreases cur@.len(),
    {
        let mut next: Vec<char> = Vec::new();
        for i in p.len()..cur.len()
            invariant
                p@.len() <= cur@.len(),
                next@ == cur@.subrange(p@.len() as int, i as int),
        {
            next.push(cur[i]);
            assert(next@ =~= cur@.subrange(p@.len() as int, i + 1));
        }
        assert(next@ =~= cur@.skip(p@.len() as int));
        cur = next;
    }
    cur
}

/// Characters from a string literal's characters.
fn chars_of(s: &str) -> (res: Vec<char>)
    ensures
        res@ == s@,
{
    str_chars(s)
}

/// The symbols of the pieces of a production line.
fn read_right(line: &Vec<char>) -> (res: Vec<Letter>)
    ensures
        super::letter::seq_view(res@) == adv_right(line@),
{
    let t = trim_chars(line);
    let ps = split_chars(&t, ' ');
    let ghost pv = ps@.map_values(|p: Vec<char>| p@);
    let at = chars_of("@");
    let empty_word = chars_of("EMPTY");
    proof {
        reveal_strlit("@");
        reveal_strlit("EMPTY");
        assert(at@ =~= seq!['@']);
        assert(empty_word@ =~= seq!['E', 'M', 'P', 'T', 'Y']);
    }
    let mut res: Vec<Letter> = Vec::new();
    assert(pv.take(0) =~= Seq::<Seq<char>>::empty());
    for k in 0..ps.len()
        invariant
            pv == ps@.map_values(|p: Vec<char>| p@),
            at@ == seq!['@'],
            empty_word@ == seq!['E', 'M', 'P', 'T', 'Y'],
            super::letter::seq_view(res@) == adv_symbols(pv.take(k as int)),
    {
        assert(pv.take(k + 1).drop_last() =~= pv.take(k as int));
        assert(pv.take(k + 1).last() == ps@[k as int]@);
        let w = &ps[k];
        if w.len() != 0 {
            let ghost r0 = res@;
            let letter = if begins_with(w, &at) {
                Letter::Terminal(chars_string(&strip_prefixes(w, &at)))
            } else if w.len() == 5 && begins_with(w, &empty_word) {
                proof {
                    assert(w@ =~= seq!['E', 'M', 'P', 'T', 'Y']);
                }
                Letter::Empty
            } else {
                proof {
                    if w@ == seq!['E', 'M', 'P', 'T', 'Y'] {
                        assert(w@.take(5) =~= w@);
                    }
                }
                Letter::NonTerminal(chars_string(w))
            };
            res.push(letter);
            proof {
                super::letter::lemma_seq_view_push(r0, letter);
            }
        }
    }
    assert(pv.take(ps@.len() as int) =~= pv);
    res
}

/// Reads an advanced grammar file: rule sets made of a header line with the left side
/// (`ORIGIN name` marks the start symbol) and indented production lines whose pieces are
/// `@type` for a terminal, `EMPTY` for the empty word or a non terminal's name; empty
/// lines and `//` comments are skipped. The productions and the start symbol.
pub fn advanced_rules_from_text(text: &str) -> (res: (Vec<Rule>, Letter))
    ensures
        rules_view(res.0@) == adv_run(lines(text@).push(end_line())).rules,
        res.1@ == adv_run(lines(text@).push(end_line())).origin,
{
    let cs = str_chars(text);
    let mut ls = split_lines(&cs);
    let ghost lv0 = char_seqs(ls@);
    let sentinel = chars_of("####");
    proof {
        reveal_strlit("####");
        assert(sentinel@ =~= end_line());
    }
    ls.push(sentinel);
    let ghost lv = char_seqs(ls@);
    assert(lv =~= lines(text@).push(end_line()));
    let comment = chars_of("//");
    let space = chars_of(" ");
    let origin_word = chars_of("ORIGIN");
    proof {
        reveal_strlit("//");
        reveal_strlit(" ");
        reveal_strlit("ORIGIN");
        assert(comment@ =~= seq!['/', '/']);
        assert(space@ =~= seq![' ']);
        assert(origin_word@ =~= seq!['O', 'R', 'I', 'G', 'I', 'N']);
    }
    let mut item: Vec<Vec<char>> = Vec::new();
    let mut rules: Vec<Rule> = Vec::new();
    let mut origin = Letter::Empty;
    assert(lv.take(0) =~= Seq::<Seq<char>>::empty());
    assert(char_seqs(item@) =~= Seq::<Seq<char>>::empty());
    assert(rules_view(rules@) =~= Seq::<SpecRule>::empty());
    for i in 0..ls.len()
        invariant
            lv == char_seqs(ls@),
            comment@ == seq!['/', '/'],
            space@ == seq![' '],
            origin_word@ == seq!['O', 'R', 'I', 'G', 'I', 'N'],
            adv_run(lv.take(i as int)) == (AdvState { item: char_seqs(item@), rules: rules_view(rules@), origin: origin@ }),
    {
        assert(lv.take(i + 1).drop_last() =~= lv.take(i as int));
        assert(lv.take(i + 1).last() == ls@[i as int]@);
        let line = &ls[i];
        let ghost st = adv_run(lv.take(i as int));
        let tl = trim_chars(line);
        if line.len() == 0 || begins_with(&tl, &comment) {
        } else if !begins_with(line, &space) {
            if item.len() <= 1 {
                let ghost i0 = char_seqs(item@);
                item.push(line.clone());
                assert(char_seqs(item@) =~= i0.push(line@));
            } else {
                let name = trim_chars(&strip_prefixes(&item[0], &origin_word));
                let ghost iv = char_seqs(item@);
                assert(iv[0] == item@[0]@);
                let ghost r0 = rules_view(rules@);
                for k in 1..item.len()
                    invariant
                        iv == char_seqs(item@),
                        item@.len() >= 2,
                        name@ == header_name(iv[0]),
                        rules_view(rules@) == r0 + item_rules(iv.take(k as int)),
                {
                    let right = read_right(&item[k]);
                    let left = Letter::NonTerminal(chars_string(&name));
                    let ghost rr = rules_view(rules@);
                    let rule = Rule::new(left, right);
                    rules.push(rule);
                    proof {
                        assert(iv[k as int] == item@[k as int]@);
                        assert(rules_view(rules@) =~= rr.push(rule@));
                        assert(item_rules(iv.take(k + 1)) =~= item_rules(iv.take(k as int)).push(rule@)) by {
                            assert(iv.take(k + 1)[0] == iv[0]);
                            assert(iv.take(k as int)[0] == iv[0]);
                        }
                    }
                }
                assert(iv.take(item@.len() as int) =~= iv);
                if begins_with(&item[0], &origin_word) {
                    origin = Letter::NonTerminal(chars_string(&name));
                }
                item = Vec::new();
                item.push(line.clone());
                assert(char_seqs(item@) =~= seq![line@]);
            }
        } else {
            let ghost i0 = char_seqs(item@);
            item.push(line.clone());
            assert(char_seqs(item@) =~= i0.push(line@));
        }
    }
    assert(lv.take(ls@.len() as int) =~= lv);
    (rules, origin)
}
} // verus!

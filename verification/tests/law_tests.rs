use grammar::automaton::nfa::NFA;
use grammar::grammar::input::advanced_rules_from_text;
use grammar::grammar::letter::Letter;
use grammar::grammar::rule::Rule;
use grammar::grammar::Grammar;
use grammar::lr0::lr0_item::LR0Item;
use grammar::lr0::lr0_item_set_family::LR0ItemSetFamily;
use grammar::lr1::lr1_item::LR1Item;
use grammar::lr1::lr1_item_set_family::LR1ItemSetFamily;
use grammar::lr_table::{action_get, action_put, goto_get, goto_put, ActionTableItem, GotoTableItem};
use grammar::optimization::input::{graph_from_text, load_gen_kill_from_text};
use grammar::optimization::ud;
use grammar::{lalr1, ll1, lr0, lr1, slr1};

fn t(s: &str) -> Letter {
    Letter::Terminal(String::from(s))
}

fn grammar_of(text: &str) -> Grammar {
    let (rules, origin) = advanced_rules_from_text(text);
    Grammar::from_rules(rules, origin).unwrap()
}

#[test]
fn law_read_after_write_on_rows() {
    let mut row: Vec<(Letter, ActionTableItem)> = Vec::new();
    action_put(&mut row, t("a"), ActionTableItem::Step(3));
    action_put(&mut row, t("b"), ActionTableItem::Accept);
    action_put(&mut row, t("a"), ActionTableItem::Reduce(Rule::from_single("S", "a")));
    match action_get(&row, &t("a")) {
        Some(ActionTableItem::Reduce(r)) => assert_eq!(r.to_string(), "S -> a"),
        _ => panic!("the entry written last must be read"),
    }
    assert!(matches!(action_get(&row, &t("b")), Some(ActionTableItem::Accept)));
    assert!(action_get(&row, &t("c")).is_none());

    let mut goto: Vec<(Letter, GotoTableItem)> = Vec::new();
    goto_put(&mut goto, Letter::NonTerminal(String::from("S")), GotoTableItem::Step(1));
    goto_put(&mut goto, Letter::NonTerminal(String::from("S")), GotoTableItem::Step(4));
    assert!(matches!(goto_get(&goto, &Letter::NonTerminal(String::from("S"))), Some(GotoTableItem::Step(4))));
    assert!(goto_get(&goto, &Letter::NonTerminal(String::from("T"))).is_none());
}

#[test]
fn law_closure_idempotent_on_sample() {
    let nfa = NFA::from_text("0\n3\na b\n2 . 1 a 0\n1 . 2\n1 b 3\n0\n").unwrap();
    let once = nfa.epsilon_closure(&vec![0]);
    assert_eq!(once, vec![0, 1, 2]);
    assert_eq!(nfa.epsilon_closure(&once), once);
}

#[test]
fn law_flow_equations_on_sample() {
    let g = graph_from_text("1 1\n1 2\n2 1 3\n0\n").unwrap();
    let gk = load_gen_kill_from_text("1, 4\n2, 5\n3 4, 1\n5,\n").unwrap();
    let (ans, _) = ud::calc_with_process(&g, &gk);
    for i in 0..gk.len() {
        let (inn, out) = (&ans[i].0, &ans[i].1);
        let mut expect_out: Vec<usize> = inn.iter().cloned().filter(|d| !gk[i].1.contains(d)).collect();
        for d in &gk[i].0 {
            if !expect_out.contains(d) {
                expect_out.push(*d);
            }
        }
        let mut got = out.clone();
        got.sort();
        expect_out.sort();
        assert_eq!(got, expect_out);
        let mut joined: Vec<usize> = Vec::new();
        for p in g.predecessors(i) {
            for d in &ans[p].1 {
                if !joined.contains(d) {
                    joined.push(*d);
                }
            }
        }
        let mut got_in = inn.clone();
        got_in.sort();
        joined.sort();
        assert_eq!(got_in, joined);
    }
}

fn lr0_sets(f: &LR0ItemSetFamily) -> Vec<Vec<LR0Item>> {
    let mut sets: Vec<Vec<LR0Item>> = f
        .item_sets
        .iter()
        .map(|s| {
            let mut v = s.items.clone();
            v.sort();
            v
        })
        .collect();
    sets.sort();
    sets
}

fn lr1_sets(f: &LR1ItemSetFamily) -> Vec<Vec<LR1Item>> {
    let mut sets: Vec<Vec<LR1Item>> = f
        .item_sets
        .iter()
        .map(|s| {
            let mut v = s.items.clone();
            v.sort();
            v
        })
        .collect();
    sets.sort();
    sets
}

const SUM: &str = "ORIGIN P\n    E\nE\n    E @+ T\n    T\nT\n    @i\n";

#[test]
fn law_family_unique_across_seeds() {
    let g = grammar_of(SUM);
    let base0 = lr0_sets(&LR0ItemSetFamily::from_grammar(&g));
    let base1 = lr1_sets(&LR1ItemSetFamily::from_grammar(&g));
    for seed in [1u64, 7, 10086] {
        assert_eq!(lr0_sets(&LR0ItemSetFamily::from_grammar_with_seed(&g, seed)), base0);
        assert_eq!(lr1_sets(&LR1ItemSetFamily::from_grammar_with_seed(&g, seed)), base1);
    }
}

#[test]
fn law_class_agrees_with_table() {
    for text in [SUM, "ORIGIN E\n    S\nS\n    @a S @b\n    @c\n"] {
        let g = grammar_of(text);
        for seed in [0u64, 5, 42] {
            assert_eq!(lr0::is_lr0_grammar(&g), lr0::lr_table_from_grammar_with_seed(&g, seed).is_ok());
            assert_eq!(slr1::is_slr1_grammar(&g), slr1::lr_table_from_grammar_with_seed(&g, seed).is_ok());
            assert_eq!(lr1::is_lr1_grammar(&g), lr1::lr_table_from_grammar_with_seed(&g, seed).is_ok());
            assert_eq!(
                lalr1::is_lalr1_checked(&g),
                lalr1::lalr_table_checked_with_seed(&g, seed).map(|r| r.is_ok())
            );
        }
        assert_eq!(ll1::is_ll1_grammar(&g), ll1::ll_table_from_grammar(&g).is_ok());
    }
}

#[test]
fn law_lalr1_class_on_merging_grammar() {
    let g = grammar_of("ORIGIN P\n    S\nS\n    @a A @d\n    @b B @d\n    @a B @e\n    @b A @e\nA\n    @c\nB\n    @c\n");
    for seed in [0u64, 9, 77] {
        assert_eq!(lalr1::is_lalr1_checked(&g), Some(false));
        assert_eq!(lalr1::lalr_table_checked_with_seed(&g, seed).map(|r| r.is_ok()), Some(false));
    }
}

fn run_dfa(d: &grammar::automaton::dfa::DFA, w: &[&str]) -> bool {
    let mut s = d.start;
    for x in w {
        match d.step_single(s, t(x)) {
            Some(n) => s = n,
            None => return false,
        }
    }
    d.end.contains(&s)
}

fn run_nfa(n: &NFA, w: &[&str]) -> bool {
    let mut cur = n.epsilon_closure(&vec![n.start]);
    for x in w {
        cur = n.step(&cur, t(x));
    }
    cur.iter().any(|s| n.end.contains(s))
}

fn words(max: usize) -> Vec<Vec<&'static str>> {
    let mut all: Vec<Vec<&'static str>> = vec![vec![]];
    let mut last: Vec<Vec<&'static str>> = vec![vec![]];
    for _ in 0..max {
        let mut next = Vec::new();
        for w in &last {
            for x in ["a", "b"] {
                let mut v = w.clone();
                v.push(x);
                next.push(v);
            }
        }
        all.extend(next.iter().cloned());
        last = next;
    }
    all
}

#[test]
fn law_languages_kept_on_sample() {
    let n = NFA::from_text("0\n3\na b\n3 a 0 b 0 . 1\n1 a 2\n1 b 3\n0\n").unwrap();
    let (d, _) = n.to_dfa_with_process();
    let (m, _) = d.minimize_with_process();
    assert!(m.edges.len() <= d.edges.len());
    let mut accepted = 0;
    for w in words(6) {
        let expect = run_nfa(&n, &w);
        assert_eq!(run_dfa(&d, &w), expect);
        assert_eq!(run_dfa(&m, &w), expect);
        if expect {
            accepted += 1;
        }
    }
    assert!(accepted > 0);
    assert!(run_nfa(&n, &["b", "a", "b"]));
    assert!(!run_nfa(&n, &["b", "a"]));
}

#[test]
fn law_classes_nest() {
    let merging = "ORIGIN P\n    S\nS\n    @a A @d\n    @b B @d\n    @a B @e\n    @b A @e\nA\n    @c\nB\n    @c\n";
    for text in [SUM, "ORIGIN E\n    S\nS\n    @a S @b\n    @c\n", merging] {
        let g = grammar_of(text);
        if lr0::is_lr0_grammar(&g) {
            assert!(slr1::is_slr1_grammar(&g));
        }
        if lalr1::is_lalr1_checked(&g) == Some(true) {
            assert!(lr1::is_lr1_grammar(&g));
        }
    }
    // the merging grammar is LR(1) but not LALR(1)
    let g = grammar_of(merging);
    assert!(lr1::is_lr1_grammar(&g));
    assert_eq!(lalr1::is_lalr1_checked(&g), Some(false));
}

#[test]
fn law_lalr1_answer_covers_sr_conflicts() {
    // an ambiguous grammar has a shift-reduce conflict in its LR(1) states: not LALR(1)
    let g = grammar_of("ORIGIN E\n    S\nS\n    S @p S\n    @a\n");
    assert_eq!(lalr1::is_lalr1_checked(&g), None);
    assert!(!lalr1::is_lalr1_grammar(&g));
    assert!(!lr1::is_lr1_grammar(&g));
    let h = grammar_of(SUM);
    assert_eq!(lalr1::is_lalr1_grammar(&h), lalr1::is_lalr1_checked(&h) == Some(true));
}

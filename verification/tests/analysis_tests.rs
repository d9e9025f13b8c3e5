use grammar::first_follow_set::FirstFollowSet;
use grammar::grammar::input::advanced_rules_from_text;
use grammar::grammar::letter::Letter;
use grammar::grammar::Grammar;
use grammar::ll_table::analysis::LLAction;
use grammar::lr_table::analysis::LRAnalysis;
use grammar::lr_table::ActionTableItem;
use grammar::parse_tree::ParseTree;
use grammar::token::{Token, TokenStream};
use grammar::{lalr1, ll1, lr0, lr1, slr1};

const NESTED: &str = "ORIGIN E\n    S\nS\n    @a S @b\n    @c\n";
const SUM: &str = "ORIGIN P\n    E\nE\n    E @+ T\n    T\nT\n    @i\n";
const AMBIGUOUS: &str = "ORIGIN P\n    E\nE\n    E @+ E\n    @i\n";
const MERGE: &str = "ORIGIN P\n    S\nS\n    @a A @d\n    @b B @d\n    @a B @e\n    @b A @e\nA\n    @c\nB\n    @c\n";

fn grammar_of(text: &str) -> Grammar {
    let (rules, origin) = advanced_rules_from_text(text);
    Grammar::from_rules(rules, origin).unwrap()
}

fn tokens(words: &[&str]) -> TokenStream {
    let mut stream: Vec<Token> = words
        .iter()
        .map(|w| Token::new(String::from(*w), String::from(*w), 0, 0))
        .collect();
    stream.push(Token::new(String::from("EOF"), String::new(), 0, 0));
    TokenStream { stream }
}

fn shape(t: &ParseTree) -> String {
    match t {
        ParseTree::Leaf(tok) => tok.ttype.clone(),
        ParseTree::NonLeaf(n) => {
            let parts: Vec<String> = n.children.iter().map(|c| shape(c)).collect();
            format!("{}({})", n.name, parts.join(","))
        }
    }
}

fn action_names(actions: Vec<&ActionTableItem>) -> Vec<String> {
    actions
        .iter()
        .map(|a| match a {
            ActionTableItem::Step(_) => String::from("S"),
            ActionTableItem::Reduce(r) => r.to_string(),
            ActionTableItem::Accept => String::from("acc"),
            ActionTableItem::Error => String::from("error"),
        })
        .collect()
}

fn sorted_names(v: &[Letter]) -> Vec<String> {
    let mut names: Vec<String> = v.iter().map(|l| l.to_string()).collect();
    names.sort();
    names
}

#[test]
fn test_advanced_text_rules() {
    let (rules, origin) = advanced_rules_from_text(NESTED);
    assert_eq!(origin, Letter::NonTerminal(String::from("E")));
    let shown: Vec<String> = rules.iter().map(|r| r.to_string()).collect();
    assert_eq!(shown, vec!["E -> {S}", "S -> a{S}b", "S -> c"]);
}

#[test]
fn test_advanced_text_comments_and_empty() {
    let (rules, origin) = advanced_rules_from_text("// a comment\nORIGIN S\n    @a S\n    EMPTY\n");
    assert_eq!(origin, Letter::NonTerminal(String::from("S")));
    let shown: Vec<String> = rules.iter().map(|r| r.to_string()).collect();
    assert_eq!(shown, vec!["S -> a{S}", "S -> ."]);
}

#[test]
fn test_grammar_checks() {
    let g = grammar_of(NESTED);
    assert!(g.analyzable());
    assert!(g.origin_productive());
    assert!(!Grammar::new().analyzable());
    let e = grammar_of("ORIGIN S\n    @a S\n    EMPTY\n");
    assert!(e.analyzable());
    assert!(!e.origin_productive());
}

#[test]
fn test_from_rules_rejects_terminal_origin() {
    let (rules, _) = advanced_rules_from_text(NESTED);
    let r = Grammar::from_rules(rules, Letter::Terminal(String::from("a")));
    assert_eq!(r.err(), Some(String::from("only non terminal can be origin")));
}

#[test]
fn test_first_follow_sets() {
    let g = grammar_of(NESTED);
    let ff = FirstFollowSet::from_grammar(&g);
    for (k, v) in ff.first_set.iter() {
        assert!(k.is_non_terminal());
        assert_eq!(sorted_names(v), vec!["a", "c"]);
    }
    for (k, v) in ff.follow_set.iter() {
        if k.get_str() == "E" {
            assert_eq!(sorted_names(v), vec!["#"]);
        } else {
            assert_eq!(sorted_names(v), vec!["#", "b"]);
        }
    }
    assert_eq!(ff.first_set.len(), 2);
    assert_eq!(ff.follow_set.len(), 2);
}

#[test]
fn test_grammar_classes() {
    let nested = grammar_of(NESTED);
    assert!(lr0::is_lr0_grammar(&nested));
    assert!(slr1::is_slr1_grammar(&nested));
    assert!(lr1::is_lr1_grammar(&nested));
    assert_eq!(lalr1::is_lalr1_checked(&nested), Some(true));
    assert!(ll1::is_ll1_grammar(&nested));

    let sum = grammar_of(SUM);
    assert!(!lr0::is_lr0_grammar(&sum));
    assert!(slr1::is_slr1_grammar(&sum));
    assert!(lr1::is_lr1_grammar(&sum));
    assert_eq!(lalr1::is_lalr1_checked(&sum), Some(true));
    assert!(!ll1::is_ll1_grammar(&sum));

    let merge = grammar_of(MERGE);
    assert!(!lr0::is_lr0_grammar(&merge));
    assert!(!slr1::is_slr1_grammar(&merge));
    assert!(lr1::is_lr1_grammar(&merge));
    assert_eq!(lalr1::is_lalr1_checked(&merge), Some(false));

    let ambiguous = grammar_of(AMBIGUOUS);
    assert!(!lr1::is_lr1_grammar(&ambiguous));
    assert_eq!(lalr1::is_lalr1_checked(&ambiguous), None);
}

#[test]
fn test_table_errors() {
    let sum = grammar_of(SUM);
    assert_eq!(lr0::lr_table_from_grammar(&sum).err(), Some(String::from("not an LR(0) grammar")));
    assert_eq!(ll1::ll_table_from_grammar(&sum).err(), Some(String::from("not an LL(1) grammar")));
    let merge = grammar_of(MERGE);
    assert_eq!(slr1::lr_table_from_grammar(&merge).err(), Some(String::from("not an SLR(1) grammar")));
    assert_eq!(
        lalr1::lalr_table_checked_with_seed(&merge, 3).map(|r| r.err()),
        Some(Some(String::from("not an LALR(1) grammar")))
    );
    let ambiguous = grammar_of(AMBIGUOUS);
    assert_eq!(lr1::lr_table_from_grammar(&ambiguous).err(), Some(String::from("not an LR(1) grammar")));
    assert!(lalr1::lalr_table_checked_with_seed(&ambiguous, 3).is_none());
}

#[test]
fn test_lr0_analysis_accepts() {
    let g = grammar_of(NESTED);
    let table = lr0::lr_table_from_grammar(&g).unwrap();
    assert_eq!(table.action.len(), 6);
    let tree = table.analysis(&tokens(&["a", "c", "b"])).unwrap();
    assert_eq!(shape(&tree), "S(b,S(c),a)");
}

#[test]
fn test_lr0_analysis_rejects_and_sticks() {
    let g = grammar_of(NESTED);
    let table = lr0::lr_table_from_grammar(&g).unwrap();
    assert!(table.analysis(&tokens(&["a", "c"])).is_none());
    assert!(matches!(table.analysis_run(&tokens(&["a", "c"])), LRAnalysis::Rejected));
    assert!(matches!(table.analysis_run(&tokens(&["z"])), LRAnalysis::Stuck));
    assert!(matches!(table.analysis_run(&tokens(&["c"])), LRAnalysis::Accepted(_)));
}

#[test]
fn test_lr0_trace() {
    let g = grammar_of(NESTED);
    let table = lr0::lr_table_from_grammar(&g).unwrap();
    let (tree, rows) = table.analysis_with_process(&tokens(&["a", "c", "b"]));
    assert_eq!(shape(&tree.unwrap()), "S(b,S(c),a)");
    assert_eq!(
        action_names(rows.iter().map(|r| &r.action).collect()),
        vec!["S", "S", "S -> c", "S", "S -> a{S}b", "acc"]
    );
    assert_eq!(rows[0].states, vec![0]);
    assert_eq!(rows[0].signs, vec![Letter::EndSign]);
    let positions: Vec<usize> = rows.iter().map(|r| r.pos).collect();
    assert_eq!(positions, vec![0, 1, 2, 2, 3, 3]);
    assert_eq!(rows[3].signs.len(), 3);
}

#[test]
fn test_lr0_trace_error_row() {
    let g = grammar_of(NESTED);
    let table = lr0::lr_table_from_grammar(&g).unwrap();
    let (tree, rows) = table.analysis_with_process(&tokens(&["a", "b"]));
    assert!(tree.is_none());
    assert_eq!(action_names(rows.iter().map(|r| &r.action).collect()), vec!["S", "error"]);
}

#[test]
fn test_slr1_analysis() {
    let g = grammar_of(SUM);
    let table = slr1::lr_table_from_grammar(&g).unwrap();
    let ts = tokens(&["i", "+", "i"]);
    let (tree, rows) = table.analysis_with_process(&ts);
    assert_eq!(shape(&tree.unwrap()), "E(T(i),+,E(T(i)))");
    assert_eq!(
        action_names(rows.iter().map(|r| &r.action).collect()),
        vec!["S", "T -> i", "E -> {T}", "S", "S", "T -> i", "E -> {E}+{T}", "acc"]
    );
}

#[test]
fn test_lr1_and_lalr1_analysis() {
    let g = grammar_of(SUM);
    let ts = tokens(&["i", "+", "i", "+", "i"]);
    let lr1_table = lr1::lr_table_from_grammar(&g).unwrap();
    let expected = "E(T(i),+,E(T(i),+,E(T(i))))";
    assert_eq!(shape(&lr1_table.analysis(&ts).unwrap()), expected);
    let lalr = lalr1::lalr_table_from_grammar(&g).unwrap();
    assert!(lalr.action.len() <= lr1_table.action.len());
    let merged: usize = lalr.state_map.iter().map(|m| m.len()).sum();
    assert_eq!(merged, lr1_table.action.len());
    assert_eq!(shape(&lalr.into_lr_table().analysis(&ts).unwrap()), expected);
}

#[test]
fn test_merged_lr1_grammar() {
    let g = grammar_of(MERGE);
    let table = lr1::lr_table_from_grammar(&g).unwrap();
    assert_eq!(shape(&table.analysis(&tokens(&["b", "c", "e"])).unwrap()), "S(e,A(c),b)");
    assert!(table.analysis(&tokens(&["b", "c", "c"])).is_none());
}

#[test]
fn test_seeds_give_same_states() {
    let g = grammar_of(SUM);
    let a = lr1::lr_table_from_grammar_with_seed(&g, 1).unwrap();
    let b = lr1::lr_table_from_grammar_with_seed(&g, 99).unwrap();
    assert_eq!(a.action.len(), b.action.len());
    let ts = tokens(&["i", "+", "i"]);
    assert_eq!(shape(&a.analysis(&ts).unwrap()), shape(&b.analysis(&ts).unwrap()));
}

#[test]
fn test_ll1_trace() {
    let g = grammar_of(NESTED);
    let table = ll1::ll_table_from_grammar(&g).unwrap();
    let ts = tokens(&["a", "c", "b"]);
    let (complete, rows) = table.analysis_checked(&ts, g.origin.clone());
    assert!(complete);
    let names: Vec<String> = rows
        .iter()
        .map(|r| match &r.action {
            LLAction::Expand(rule) => rule.to_string(),
            LLAction::Match => String::from("match"),
            LLAction::Accept => String::from("acc"),
            LLAction::Error => String::from("error"),
            LLAction::Idle => String::from("idle"),
        })
        .collect();
    assert_eq!(names, vec!["E -> {S}", "S -> a{S}b", "match", "S -> c", "match", "match", "acc"]);
    assert_eq!(rows[0].stack, vec![Letter::EndSign, Letter::NonTerminal(String::from("E"))]);
    let (tree, rows2) = table.analysis_with_process(&ts, g.origin.clone());
    assert!(tree.is_none());
    assert_eq!(rows2.len(), 7);
}

#[test]
fn test_ll1_errors() {
    let g = grammar_of(NESTED);
    let table = ll1::ll_table_from_grammar(&g).unwrap();
    let (complete, rows) = table.analysis_checked(&tokens(&["a", "b"]), g.origin.clone());
    assert!(complete);
    assert!(matches!(rows.last().unwrap().action, LLAction::Error));
    assert_eq!(rows.len(), 4);
    let (complete, _) = table.analysis_checked(&tokens(&["z"]), g.origin.clone());
    assert!(!complete);
}

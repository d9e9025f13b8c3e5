use grammar::first_follow_set::FirstFollowSet;
use grammar::automaton::nfa::NFA;
use grammar::grammar::letter::Letter;
use grammar::grammar::rule::Rule;
use grammar::grammar::Grammar;
use grammar::lr0::lr0_item::LR0Item;
use grammar::lr0::lr0_item_set::LR0ItemSet;
use grammar::lr1::lr1_item::LR1Item;
use grammar::lr1::lr1_item_set::LR1ItemSet;
use grammar::parse_tree::{NonLeafNode, ParseTree};
use grammar::token::{Token, TokenStream};

fn t(s: &str) -> Letter {
    Letter::Terminal(String::from(s))
}

fn n(s: &str) -> Letter {
    Letter::NonTerminal(String::from(s))
}

fn leaf(ty: &str) -> ParseTree {
    ParseTree::Leaf(Token::new(String::from(ty), String::from(ty), 0, 0))
}

#[test]
fn test_lr1_item_printed() {
    let item = LR1Item::from(n("S"), vec![t("a")], vec![n("B"), t("c")], Letter::EndSign);
    assert_eq!(item.to_string(), "S -> a:{B}c, #");
}

#[test]
fn test_item_sets_printed() {
    let a = LR1Item::from(n("S"), vec![], vec![t("a")], t("b"));
    let b = LR1Item::from(n("S"), vec![t("a")], vec![], Letter::EndSign);
    let set = LR1ItemSet { items: vec![a, b] };
    assert_eq!(set.to_string(), "S -> :a, b\nS -> a:, #\n");
    let set0 = LR0ItemSet { items: vec![LR0Item { left: n("S"), x: vec![], y: vec![n("A")] }] };
    assert_eq!(set0.to_string(), "S -> :{A}\n");
    assert_eq!(LR0ItemSet { items: vec![] }.to_string(), "");
}

#[test]
fn test_nfa_printed() {
    let nfa = NFA {
        start: 0,
        end: vec![1],
        letters: vec![t("a"), t("b")],
        edges: vec![vec![(t("a"), 1), (Letter::Empty, 12)], vec![]],
    };
    assert_eq!(nfa.to_string(), "letters:\na b \n0:\n    a -> 1\n    . -> 12\n1:\n");
}

#[test]
fn test_grammar_printed() {
    let g = Grammar {
        rules: vec![Rule::new(n("S"), vec![t("a"), n("S")]), Rule::new(n("S"), vec![Letter::Empty])],
        origin: n("S"),
        terminals: vec![t("a")],
        non_terminals: vec![n("S")],
    };
    assert_eq!(
        g.to_string(),
        "rules:\n    S -> a{S}\n    S -> .\norigin:\n    S\nterminals:\n    a, \nnon terminals:\n    S, "
    );
}

#[test]
fn test_parse_tree_printed() {
    let mut inner = NonLeafNode::new("A");
    inner.push_child_front(leaf("b"));
    let mut root = NonLeafNode::new("S");
    root.push_child_front(ParseTree::NonLeaf(inner));
    root.push_child_front(leaf("a"));
    let tree = ParseTree::NonLeaf(root);
    // the subtrees of a node come after it, the last one first
    assert_eq!(tree.to_string(), "S\n  A\n    b\n  a\n");
    assert_eq!(leaf("x").to_string(), "x\n");
}

#[test]
fn test_token_stream_printed() {
    let ts = TokenStream {
        stream: vec![
            Token::new(String::from("id"), String::from("x"), 1, 2),
            Token::new(String::from("EOF"), String::new(), 0, 0),
        ],
    };
    assert_eq!(ts.to_string(), "type: id text: x\ntype: EOF text: \n");
}

fn sample_grammar(rules: Vec<Rule>) -> Grammar {
    Grammar { rules, origin: n("S"), terminals: vec![t("a"), t("b")], non_terminals: vec![n("S")] }
}

#[test]
fn test_item_sets_come_sorted() {
    let g = sample_grammar(vec![
        Rule::new(n("S"), vec![t("b")]),
        Rule::new(n("S"), vec![t("a"), n("S")]),
    ]);
    let all = LR0ItemSet::from_grammar(&g);
    assert_eq!(all.to_string(), "S -> :a{S}\nS -> :b\nS -> a:{S}\nS -> a{S}:\nS -> b:\n");
    let init = LR0ItemSet::from_grammar_initial(&g);
    assert_eq!(init.to_string(), "S -> :a{S}\nS -> :b\n");
    let init1 = LR1ItemSet::from_grammar_initial(&g);
    assert_eq!(init1.to_string(), "S -> :a{S}, #\nS -> :b, #\n");
}

#[test]
fn test_item_list_keeps_repeats() {
    let g = sample_grammar(vec![Rule::new(n("S"), vec![t("b")]), Rule::new(n("S"), vec![t("b")])]);
    let all = LR0ItemSet::from_grammar(&g);
    assert_eq!(all.to_string(), "S -> :b\nS -> :b\nS -> b:\nS -> b:\n");
}

#[test]
fn test_lr1_closure_with_non_terminal_lookahead() {
    let g = sample_grammar(vec![
        Rule::new(n("S"), vec![t("a"), n("S")]),
        Rule::new(n("S"), vec![t("b")]),
    ]);
    let ff = FirstFollowSet::from_grammar(&g);
    let start = LR1ItemSet { items: vec![LR1Item::from(n("S"), vec![t("a")], vec![n("S")], n("S"))] };
    let c = start.closure(&g.rules, &ff);
    assert_eq!(c.to_string(), "S -> :a{S}, a\nS -> :a{S}, b\nS -> :b, a\nS -> :b, b\nS -> a:{S}, {S}\n");
    let moved = start.go(&g.rules, &n("S"), &ff);
    assert_eq!(moved.to_string(), "S -> a{S}:, {S}\n");
}

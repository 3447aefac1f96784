//! Grammars from their definitions: names of symbols become IDs, bodies of
//! rules become lists of IDs, and patterns become matchers.

use crate::action::Action;
use crate::grammar::{valid_parts, Grammar};
use crate::matcher::{chars_of, regex_valid, Matcher, Pattern};
use crate::rule::{rule_views, Rule};
use crate::symbol::{Symbol, END, INTERNAL, NULL, START};
use vstd::prelude::*;
use vstd::std_specs::cmp::PartialEqSpec;
use vstd::string::StringExecFns;

verus! {

/// How the text of a terminal is recognised.
pub enum TokenPattern {
    /// By a regular expression.
    Regex(String),
    /// By a list of literal texts.
    Group(Vec<String>),
    /// Neither a text nor a list of texts.
    Other,
}

/// What defines a grammar, as it is written down: names and texts.
pub struct Definition {
    /// Display name.
    pub name: String,
    /// Informational text.
    pub description: String,
    /// Name of the start nonterminal; the head of the first rule where none
    /// is given.
    pub start_symbol: Option<String>,
    /// For each nonterminal its rule bodies: symbol names between white
    /// space; an empty text is ϵ.
    pub rules: Vec<(String, Vec<String>)>,
    /// Patterns of terminals.
    pub tokens: Vec<(String, TokenPattern)>,
    /// Patterns of texts that are read and dropped.
    pub ignore: Vec<(String, TokenPattern)>,
    /// Preferred actions for conflicts: `shift` or `reduce`; `None` where
    /// the action is no text.
    pub actions: Vec<(String, Option<String>)>,
}

/// What is wrong with the definition of a grammar.
#[derive(Debug)]
pub enum Error {
    /// The action of the symbol is neither `shift` nor `reduce`.
    Action(String),
    /// The file cannot be read, or defines no rules.
    File(String),
    /// The key is missing.
    Key(String),
    /// The text is no regular expression.
    Regex(String),
    /// The rule of the symbol is no text.
    Rule(String),
    /// The pattern of the symbol is neither a text nor a list of texts.
    Token(String),
}

/// The character separates names.
pub open spec fn is_space(ch: char) -> bool {
    ch == ' ' || ch == '\t' || ch == '\n' || ch == '\r' || ch == '\x0b' || ch == '\x0c'
}

/// The first index from `i` on of a character that separates names, if
/// `space` is set, or of one that does not; the length of the text where
/// there is none.
pub open spec fn next_at(text: Seq<char>, i: int, space: bool) -> int
    decreases text.len() - i,
{
    if i < 0 || i >= text.len() {
        text.len() as int
    } else if is_space(text[i]) == space {
        i
    } else {
        next_at(text, i + 1, space)
    }
}

/// The names in a text from index `i` on: the longest runs of characters
/// that do not separate names.
pub open spec fn names_from(text: Seq<char>, i: int) -> Seq<Seq<char>>
    decreases text.len() - i,
{
    let first = next_at(text, i, false);
    let last = next_at(text, first, true);
    if i < 0 || first >= text.len() || last <= first || last <= i || last > text.len() {
        Seq::empty()
    } else {
        seq![text.subrange(first, last)] + names_from(text, last)
    }
}

/// The index found by `next_at` is not before `i` and not behind the text.
pub proof fn lemma_next_at(text: Seq<char>, i: int, space: bool)
    requires
        0 <= i <= text.len(),
    ensures
        i <= next_at(text, i, space) <= text.len(),
        next_at(text, i, space) < text.len() ==> is_space(text[next_at(text, i, space)]) == space,
    decreases text.len() - i,
{
    if i < text.len() && is_space(text[i]) != space {
        lemma_next_at(text, i + 1, space);
    }
}

/// Returns `true` if the character separates names.
pub fn separates(ch: char) -> (space: bool)
    ensures
        space == is_space(ch),
{
    ch == ' ' || ch == '\t' || ch == '\n' || ch == '\r' || ch == '\x0b' || ch == '\x0c'
}

/// Returns the first index from `i` on of a character that separates
/// names, if `space` is set, or of one that does not.
fn scan(chars: &Vec<char>, i: usize, space: bool) -> (at: usize)
    requires
        i <= chars.len(),
    ensures
        at == next_at(chars@, i as int, space),
        i <= at <= chars.len(),
{
    let mut at = i;
    while at < chars.len() && separates(chars[at]) != space
        invariant
            i <= at <= chars.len(),
            next_at(chars@, i as int, space) == next_at(chars@, at as int, space),
        decreases chars.len() - at,
    {
        at += 1;
    }
    at
}

/// Returns the names in a text: its parts between white space.
pub fn split_names(text: &str) -> (names: Vec<String>)
    ensures
        names.len() == names_from(text@, 0).len(),
        forall|k: int| 0 <= k < names.len() ==> (#[trigger] names[k])@ == names_from(text@, 0)[k],
{
    let chars = chars_of(text);
    let mut names: Vec<String> = Vec::new();
    let mut i: usize = 0;
    let ghost mut done: Seq<Seq<char>> = Seq::empty();
    loop
        invariant
            chars@ == text@,
            i <= chars.len(),
            names.len() == done.len(),
            forall|k: int| 0 <= k < names.len() ==> (#[trigger] names[k])@ == done[k],
            names_from(text@, 0) == done + names_from(text@, i as int),
        ensures
            names.len() == done.len(),
            forall|k: int| 0 <= k < names.len() ==> (#[trigger] names[k])@ == done[k],
            names_from(text@, 0) == done,
        decreases chars.len() - i,
    {
        let first = scan(&chars, i, false);
        if first >= chars.len() {
            assert(done + Seq::<Seq<char>>::empty() =~= done);
            break;
        }
        let last = scan(&chars, first, true);
        proof {
            lemma_next_at(chars@, first as int, true);
            lemma_next_at(chars@, i as int, false);
            assert(last > first);
        }
        let name = text.substring_char(first, last).to_owned();
        names.push(name);
        proof {
            let word = text@.subrange(first as int, last as int);
            assert(done + (seq![word] + names_from(text@, last as int)) =~= done.push(word)
                + names_from(text@, last as int));
            done = done.push(word);
        }
        i = last;
    }
    names
}

/// The names of the symbols are known under their IDs: every entry names
/// a symbol behind the internal ones.
pub open spec fn names_ok(names: Seq<(String, usize)>, count: nat) -> bool {
    forall|k: int| 0 <= k < names.len() ==> INTERNAL <= (#[trigger] names[k]).1 < count
}

/// The symbols have their indices as their IDs; the first three are the
/// internal ones.
pub open spec fn symbols_ok(symbols: Seq<Symbol>) -> bool {
    &&& symbols.len() >= INTERNAL
    &&& symbols[START as int] is Start
    &&& symbols[END as int] is End
    &&& symbols[NULL as int] is Null
    &&& forall|x: int| 0 <= x < symbols.len() ==> (#[trigger] symbols[x]).spec_id() == x
}

/// The list has an entry for the name.
pub open spec fn known(names: Seq<(String, usize)>, name: Seq<char>) -> bool {
    exists|k: int| 0 <= k < names.len() && (#[trigger] names[k]).0@ == name
}

/// The symbol is a terminal or a nonterminal, as asked for, with the name.
pub open spec fn named_so(symbol: Symbol, is_terminal: bool, name: Seq<char>) -> bool {
    match symbol {
        Symbol::Terminal(_, text) => is_terminal && text@ == name,
        Symbol::NonTerminal(_, text) => !is_terminal && text@ == name,
        _ => false,
    }
}

/// Returns the ID in the list for the name, if it has one.
pub fn find_name(names: &Vec<(String, usize)>, name: &str) -> (found: Option<usize>)
    ensures
        match found {
            Some(id) => exists|k: int|
                0 <= k < names.len() && (#[trigger] names[k]).0@ == name@ && names[k].1 == id,
            None => forall|k: int| 0 <= k < names.len() ==> (#[trigger] names[k]).0@ != name@,
        },
{
    let wanted = name.to_owned();
    let mut k: usize = 0;
    while k < names.len()
        invariant
            k <= names.len(),
            wanted@ == name@,
            forall|j: int| 0 <= j < k ==> (#[trigger] names[j]).0@ != name@,
        decreases names.len() - k,
    {
        if names[k].0 == wanted {
            return Some(names[k].1);
        }
        k += 1;
    }
    None
}

/// Returns the symbol ID for the specified symbol name: that of the symbol
/// with the name, or that of a new symbol, which is a terminal or a
/// nonterminal as asked for.
pub fn get_symbol(
    name: &str,
    is_terminal: bool,
    names: &mut Vec<(String, usize)>,
    symbols: &mut Vec<Symbol>,
) -> (id: usize)
    requires
        symbols_ok(old(symbols)@),
        names_ok(old(names)@, old(symbols).len() as nat),
    ensures
        symbols_ok(final(symbols)@),
        names_ok(final(names)@, final(symbols).len() as nat),
        INTERNAL <= id < final(symbols).len(),
        old(symbols)@.is_prefix_of(final(symbols)@),
        old(names)@.is_prefix_of(final(names)@),
        known(old(names)@, name@) ==> final(symbols)@ == old(symbols)@ && final(names)@
            == old(names)@ && exists|k: int|
            0 <= k < old(names).len() && (#[trigger] old(names)[k]).0@ == name@ && old(
                names,
            )[k].1 == id,
        !known(old(names)@, name@) ==> id == old(symbols).len() && final(symbols)@
            == old(symbols)@.push(final(symbols)@[id as int]) && named_so(
            final(symbols)@[id as int],
            is_terminal,
            name@,
        ) && final(names).len() == old(names).len() + 1 && final(names)[old(names).len() as int].0@
            == name@ && final(names)[old(names).len() as int].1 == id,
{
    match find_name(names, name) {
        Some(id) => {
            return id;
        },
        None => {},
    }
    let id = symbols.len();
    names.push((name.to_owned(), id));
    symbols.push(
        if is_terminal {
            Symbol::Terminal(id, name.to_owned())
        } else {
            Symbol::NonTerminal(id, name.to_owned())
        },
    );
    proof {
        assert forall|x: int| 0 <= x < symbols.len() implies (#[trigger] symbols[x]).spec_id()
            == x by {
            if x < id {
                assert(symbols[x] == old(symbols)[x]);
            }
        }
        assert forall|k: int| 0 <= k < names.len() implies INTERNAL <= (#[trigger] names[k]).1
            < symbols.len() by {
            if k < old(names).len() {
                assert(names[k] == old(names)[k]);
            }
        }
    }
    id
}

/// Creates a `Matcher` from a specified pattern: a regular expression
/// between `^` and `$`, or the list of literal texts.
pub fn create_matcher(name: &str, pattern: &TokenPattern) -> (result: Result<Matcher, Error>)
    ensures
        match result {
            Ok(Matcher::Regex(compiled)) => pattern matches TokenPattern::Regex(text)
                && compiled.source() == seq!['^'] + text@ + seq!['$'],
            Ok(Matcher::Group(list)) => pattern matches TokenPattern::Group(texts) && list@
                == texts@,
            Ok(Matcher::Text(_)) => false,
            Err(Error::Regex(source)) => pattern matches TokenPattern::Regex(text) && source@
                == seq!['^'] + text@ + seq!['$'] && !regex_valid(source@),
            Err(Error::Token(symbol)) => *pattern is Other && symbol@ == name@,
            Err(_) => false,
        },
        *pattern is Group ==> result is Ok,
        *pattern is Other ==> result is Err,
        pattern matches TokenPattern::Regex(text) ==> (result is Ok <==> regex_valid(
            seq!['^'] + text@ + seq!['$'],
        )),
{
    match pattern {
        TokenPattern::Regex(text) => {
            proof {
                reveal_strlit("^");
                reveal_strlit("$");
            }
            let source = "^".to_owned().concat(text.as_str()).concat("$");
            assert("^"@ =~= seq!['^']);
            assert("$"@ =~= seq!['$']);
            match Pattern::compile(source.as_str()) {
                Some(compiled) => Ok(Matcher::Regex(compiled)),
                None => Err(Error::Regex(source)),
            }
        },
        TokenPattern::Group(texts) => {
            let mut list: Vec<String> = Vec::new();
            let mut k: usize = 0;
            while k < texts.len()
                invariant
                    k <= texts.len(),
                    list.len() == k,
                    forall|j: int| 0 <= j < k ==> list[j] == texts[j],
                decreases texts.len() - k,
            {
                list.push(texts[k].clone());
                k += 1;
            }
            assert(list@ =~= texts@);
            Ok(Matcher::Group(list))
        },
        TokenPattern::Other => Err(Error::Token(name.to_owned())),
    }
}

/// Returns `true` if the two texts are the same.
pub fn same_text(a: &str, b: &str) -> (same: bool)
    ensures
        same == (a@ == b@),
{
    let x = a.to_owned();
    let y = b.to_owned();
    x == y
}

/// The name is the head of rules of the definition.
pub open spec fn is_key(rules: Seq<(String, Vec<String>)>, name: Seq<char>) -> bool {
    exists|k: int| 0 <= k < rules.len() && (#[trigger] rules[k]).0@ == name
}

/// Returns `true` if the name is the head of rules of the definition.
fn has_rules(rules: &Vec<(String, Vec<String>)>, name: &str) -> (found: bool)
    ensures
        found == is_key(rules@, name@),
{
    let mut k: usize = 0;
    while k < rules.len()
        invariant
            k <= rules.len(),
            forall|j: int| 0 <= j < k ==> (#[trigger] rules[j]).0@ != name@,
        decreases rules.len() - k,
    {
        if same_text(rules[k].0.as_str(), name) {
            return true;
        }
        k += 1;
    }
    false
}

/// What has been read of a definition: the names of the symbols behind the
/// internal ones, in the order of their IDs, and the head and the body of
/// each rule, in the order of their IDs.
pub struct Reading {
    pub names: Seq<Seq<char>>,
    pub rules: Seq<(usize, Seq<usize>)>,
}

/// The names with `name` behind them, unless it is among them.
pub open spec fn with_name(names: Seq<Seq<char>>, name: Seq<char>) -> Seq<Seq<char>> {
    if names.contains(name) {
        names
    } else {
        names.push(name)
    }
}

/// The names with the first `upto` of the words added in their order.
pub open spec fn with_words(names: Seq<Seq<char>>, words: Seq<Seq<char>>, upto: nat) -> Seq<
    Seq<char>,
>
    decreases upto,
{
    if upto == 0 {
        names
    } else {
        with_name(with_words(names, words, (upto - 1) as nat), words[upto - 1])
    }
}

/// The ID of the symbol with the name: the internal symbols come first.
pub open spec fn id_of(names: Seq<Seq<char>>, name: Seq<char>) -> usize {
    (INTERNAL + names.index_of(name)) as usize
}

/// The symbol with the ID `id` has the name.
pub open spec fn at_id(names: Seq<Seq<char>>, name: Seq<char>, id: usize) -> bool {
    INTERNAL <= id < INTERNAL + names.len() && names[id - INTERNAL] == name
}

/// The body of a rule with the words: their IDs, or ϵ where there are none.
pub open spec fn body_of(names: Seq<Seq<char>>, words: Seq<Seq<char>>) -> Seq<usize> {
    if words.len() == 0 {
        seq![NULL]
    } else {
        Seq::new(words.len(), |i: int| id_of(names, words[i]))
    }
}

/// The rules with `rule` behind them, unless it is among them.
pub open spec fn with_rule(rules: Seq<(usize, Seq<usize>)>, rule: (usize, Seq<usize>)) -> Seq<
    (usize, Seq<usize>),
> {
    if rules.contains(rule) {
        rules
    } else {
        rules.push(rule)
    }
}

/// What has been read after one more rule body of the head: the names in
/// the body get IDs in their order, then the head; the rule is added unless
/// it is there.
pub open spec fn read_alternative(state: Reading, head: Seq<char>, text: Seq<char>) -> Reading {
    let words = names_from(text, 0);
    let names = with_name(with_words(state.names, words, words.len()), head);
    Reading { names, rules: with_rule(state.rules, (id_of(names, head), body_of(names, words))) }
}

/// What has been read after the first `upto` rule bodies of the head.
pub open spec fn read_alternatives(
    state: Reading,
    head: Seq<char>,
    texts: Seq<String>,
    upto: nat,
) -> Reading
    decreases upto,
{
    if upto == 0 {
        state
    } else {
        read_alternative(
            read_alternatives(state, head, texts, (upto - 1) as nat),
            head,
            texts[upto - 1]@,
        )
    }
}

/// What has been read after the rule bodies of the first `upto` heads.
pub open spec fn read_rules(state: Reading, rules: Seq<(String, Vec<String>)>, upto: nat) -> Reading
    decreases upto,
{
    if upto == 0 {
        state
    } else {
        read_alternatives(
            read_rules(state, rules, (upto - 1) as nat),
            rules[upto - 1].0@,
            rules[upto - 1].1@,
            rules[upto - 1].1.len() as nat,
        )
    }
}

/// The name of the start symbol: the one that is given, else the head of
/// the first rule.
pub open spec fn start_name(definition: Definition) -> Seq<char> {
    match definition.start_symbol {
        Some(name) => name@,
        None => definition.rules[0].0@,
    }
}

/// What is read before the first rule: the start symbol and the
/// augmentation rule.
pub open spec fn unread(definition: Definition) -> Reading {
    Reading {
        names: seq![start_name(definition)],
        rules: seq![(START, seq![END, INTERNAL, END])],
    }
}

/// The symbols and rules of a definition: the start symbol has the first
/// ID behind the internal ones and every other name the next free ID where the
/// rules first name it, in a body or as the head behind its body; the
/// augmentation rule is rule 0, and every other rule has the next free ID
/// where the definition first holds its head and body.
pub open spec fn reading(definition: Definition) -> Reading {
    read_rules(unread(definition), definition.rules@, definition.rules.len() as nat)
}

/// The symbols are those with the names: the internal ones first, then one
/// for each name, a nonterminal where it is the first name or the head of
/// rules, a terminal where not.
pub open spec fn symbols_read(
    symbols: Seq<Symbol>,
    keys: Seq<(String, Vec<String>)>,
    names: Seq<Seq<char>>,
) -> bool {
    &&& symbols_ok(symbols)
    &&& symbols.len() == INTERNAL + names.len()
    &&& forall|i: int|
        0 <= i < names.len() ==> named_so(
            symbols[INTERNAL + i],
            i != 0 && !is_key(keys, #[trigger] names[i]),
            names[i],
        )
}

/// The rules are those with the heads and bodies, each with its index as
/// its ID; only the first has a follow list, which holds ϵ.
pub open spec fn rules_read(rules: Seq<Rule>, model: Seq<(usize, Seq<usize>)>) -> bool {
    &&& rules.len() == model.len()
    &&& forall|r: int|
        0 <= r < rules.len() ==> {
            &&& (#[trigger] rules[r]).id == r
            &&& rules[r].head == model[r].0
            &&& rules[r].body@ == model[r].1
            &&& rules[r].follow@ == if r == 0 {
                seq![NULL]
            } else {
                Seq::<usize>::empty()
            }
        }
}

/// The list gives each name its ID, and no name stands twice.
pub open spec fn listed(list: Seq<(String, usize)>, names: Seq<Seq<char>>) -> bool {
    &&& names.no_duplicates()
    &&& names.len() > 0
    &&& list.len() == names.len()
    &&& forall|i: int|
        0 <= i < names.len() ==> (#[trigger] list[i]).0@ == names[i] && list[i].1 == INTERNAL + i
}

/// A name has the ID under which it stands.
pub proof fn lemma_id_of(names: Seq<Seq<char>>, name: Seq<char>, id: usize)
    requires
        names.no_duplicates(),
        at_id(names, name, id),
    ensures
        id_of(names, name) == id,
{
    assert(names.contains(name));
    let j = names.index_of(name);
    assert(0 <= j < names.len() && names[j] == name);
}

/// Returns the ID of the symbol with the name, which is new where the
/// name is.
fn intern(
    name: &str,
    is_terminal: bool,
    names: &mut Vec<(String, usize)>,
    symbols: &mut Vec<Symbol>,
    Ghost(keys): Ghost<Seq<(String, Vec<String>)>>,
    Ghost(read): Ghost<Seq<Seq<char>>>,
) -> (id: usize)
    requires
        listed(old(names)@, read),
        symbols_read(old(symbols)@, keys, read),
        is_terminal == !is_key(keys, name@),
    ensures
        listed(final(names)@, with_name(read, name@)),
        symbols_read(final(symbols)@, keys, with_name(read, name@)),
        at_id(with_name(read, name@), name@, id),
        old(symbols)@.is_prefix_of(final(symbols)@),
{
    let id = get_symbol(name, is_terminal, names, symbols);
    proof {
        let after = with_name(read, name@);
        if known(old(names)@, name@) {
            let k = choose|k: int|
                0 <= k < old(names).len() && (#[trigger] old(names)[k]).0@ == name@ && old(
                    names,
                )[k].1 == id;
            assert(read[k] == name@);
            assert(read.contains(name@));
        } else {
            if read.contains(name@) {
                let j = choose|j: int| 0 <= j < read.len() && read[j] == name@;
                assert(old(names)[j].0@ == name@);
            }
            assert(after == read.push(name@));
            assert(after.no_duplicates());
            assert forall|i: int| 0 <= i < after.len() implies (#[trigger] names[i]).0@ == after[i]
                && names[i].1 == INTERNAL + i by {
                if i < read.len() {
                    assert(names[i] == old(names)[i]);
                }
            }
            assert forall|i: int| 0 <= i < after.len() implies named_so(
                symbols[INTERNAL + i],
                i != 0 && !is_key(keys, #[trigger] after[i]),
                after[i],
            ) by {
                if i < read.len() {
                    assert(symbols[INTERNAL + i] == old(symbols)[INTERNAL + i]);
                    assert(after[i] == read[i]);
                }
            }
        }
    }
    id
}

/// Every rule has its index as its ID and names symbols below `count`;
/// the first rule is the augmentation rule, and no other rule begins with the
/// end marker.
pub open spec fn rules_ok(rules: Seq<Rule>, count: nat) -> bool {
    &&& rules.len() > 0
    &&& rules[0].head == START
    &&& rules[0].body@ == seq![END, INTERNAL, END]
    &&& rules[0].follow@ == seq![NULL]
    &&& forall|r: int| 0 <= r < rules.len() ==> (#[trigger] rules[r])@.valid_in(r, count)
}

/// Returns `true` if the list holds a rule with the head and the body.
fn holds_rule(rules: &Vec<Rule>, rule: &Rule) -> (found: bool)
    ensures
        found == exists|r: int| 0 <= r < rules.len() && (#[trigger] rules[r]).eq_spec(rule),
{
    let mut r: usize = 0;
    while r < rules.len()
        invariant
            r <= rules.len(),
            forall|q: int| 0 <= q < r ==> !(#[trigger] rules[q]).eq_spec(rule),
        decreases rules.len() - r,
    {
        if rules[r] == *rule {
            return true;
        }
        r += 1;
    }
    false
}

/// The action is the text `shift` or the text `reduce`.
pub open spec fn is_choice(action: Option<String>) -> bool {
    match action {
        Some(text) => text@ == "shift"@ || text@ == "reduce"@,
        None => false,
    }
}

/// The pattern can be made a matcher: it is a regular expression that the
/// regex crate accepts between `^` and `$`, or a list of texts.
pub open spec fn usable(pattern: TokenPattern) -> bool {
    match pattern {
        TokenPattern::Regex(text) => regex_valid(seq!['^'] + text@ + seq!['$']),
        TokenPattern::Group(_) => true,
        TokenPattern::Other => false,
    }
}

/// The definition has rules, patterns that can be made matchers, and
/// preferred actions that are `shift` or `reduce`.
pub open spec fn acceptable(definition: Definition) -> bool {
    &&& definition.rules.len() > 0
    &&& forall|k: int|
        0 <= k < definition.tokens.len() ==> usable((#[trigger] definition.tokens[k]).1)
    &&& forall|k: int|
        0 <= k < definition.ignore.len() ==> usable((#[trigger] definition.ignore[k]).1)
    &&& forall|k: int|
        0 <= k < definition.actions.len() ==> is_choice((#[trigger] definition.actions[k]).1)
}

/// What a matcher is made from: the name of a terminal, or a pattern.
pub enum Shape {
    Text(Seq<char>),
    Pattern(TokenPattern),
}

/// The matcher is the one that is made from the name or the pattern.
pub open spec fn made_from(matcher: Matcher, shape: Shape) -> bool {
    match shape {
        Shape::Text(name) => matcher matches Matcher::Text(text) && text@ == name,
        Shape::Pattern(TokenPattern::Regex(text)) => matcher matches Matcher::Regex(compiled)
            && compiled.source() == seq!['^'] + text@ + seq!['$'],
        Shape::Pattern(TokenPattern::Group(texts)) => matcher matches Matcher::Group(list)
            && list@ == texts@,
        Shape::Pattern(TokenPattern::Other) => false,
    }
}

/// The matchers are those of the symbols and the shapes, one by one.
pub open spec fn shaped(matchers: Seq<(usize, Matcher)>, shapes: Seq<(usize, Shape)>) -> bool {
    &&& matchers.len() == shapes.len()
    &&& forall|i: int|
        0 <= i < matchers.len() ==> (#[trigger] matchers[i]).0 == shapes[i].0 && made_from(
            matchers[i].1,
            shapes[i].1,
        )
}

/// The index of the first entry for the symbol from `from` on; the length
/// of the list where there is none.
pub open spec fn first_with<T>(list: Seq<(usize, T)>, symbol: usize, from: int) -> int
    decreases list.len() - from,
{
    if from < 0 || from >= list.len() {
        list.len() as int
    } else if list[from].0 == symbol {
        from
    } else {
        first_with(list, symbol, from + 1)
    }
}

/// The list has an entry for the symbol.
pub open spec fn has_entry<T>(list: Seq<(usize, T)>, symbol: usize) -> bool {
    exists|i: int| 0 <= i < list.len() && (#[trigger] list[i]).0 == symbol
}

/// The name is that of a terminal: it has an ID, is not the start symbol
/// and is no head of rules.
pub open spec fn is_terminal_name(
    names: Seq<Seq<char>>,
    keys: Seq<(String, Vec<String>)>,
    name: Seq<char>,
) -> bool {
    names.contains(name) && names[0] != name && !is_key(keys, name)
}

/// The matchers of the first `upto` names: a terminal is matched as the
/// text of its name.
pub open spec fn literal_shapes(
    names: Seq<Seq<char>>,
    keys: Seq<(String, Vec<String>)>,
    upto: nat,
) -> Seq<(usize, Shape)>
    decreases upto,
{
    if upto == 0 {
        Seq::empty()
    } else {
        let rest = literal_shapes(names, keys, (upto - 1) as nat);
        if upto - 1 != 0 && !is_key(keys, names[upto - 1]) {
            rest.push(((INTERNAL + upto - 1) as usize, Shape::Text(names[upto - 1])))
        } else {
            rest
        }
    }
}

/// The matchers with the pattern of a token: it takes the place of the
/// matcher of the terminal with that name, at the end of the list; a pattern
/// under another name changes nothing.
pub open spec fn with_token(
    shapes: Seq<(usize, Shape)>,
    names: Seq<Seq<char>>,
    keys: Seq<(String, Vec<String>)>,
    token: (String, TokenPattern),
) -> Seq<(usize, Shape)> {
    if is_terminal_name(names, keys, token.0@) {
        let symbol = id_of(names, token.0@);
        shapes.remove(first_with(shapes, symbol, 0)).push((symbol, Shape::Pattern(token.1)))
    } else {
        shapes
    }
}

/// The matchers with the patterns of the first `upto` tokens.
pub open spec fn with_tokens(
    shapes: Seq<(usize, Shape)>,
    names: Seq<Seq<char>>,
    keys: Seq<(String, Vec<String>)>,
    tokens: Seq<(String, TokenPattern)>,
    upto: nat,
) -> Seq<(usize, Shape)>
    decreases upto,
{
    if upto == 0 {
        shapes
    } else {
        with_token(
            with_tokens(shapes, names, keys, tokens, (upto - 1) as nat),
            names,
            keys,
            tokens[upto - 1],
        )
    }
}

/// The matchers with the first `upto` ignored patterns, which stand for ϵ.
pub open spec fn with_ignored(
    shapes: Seq<(usize, Shape)>,
    ignore: Seq<(String, TokenPattern)>,
    upto: nat,
) -> Seq<(usize, Shape)>
    decreases upto,
{
    if upto == 0 {
        shapes
    } else {
        with_ignored(shapes, ignore, (upto - 1) as nat).push(
            (NULL, Shape::Pattern(ignore[upto - 1].1)),
        )
    }
}

/// What the matchers of a definition are made from: the names of the
/// terminals in the order of their IDs, each replaced by the pattern of a
/// token with its name, then the ignored patterns.
pub open spec fn shapes(definition: Definition) -> Seq<(usize, Shape)> {
    let names = reading(definition).names;
    let keys = definition.rules@;
    with_ignored(
        with_tokens(
            literal_shapes(names, keys, names.len()),
            names,
            keys,
            definition.tokens@,
            definition.tokens.len() as nat,
        ),
        definition.ignore@,
        definition.ignore.len() as nat,
    )
}

/// The action that the text stands for.
pub open spec fn choice_of(action: Option<String>) -> Action {
    match action {
        Some(text) => if text@ == "shift"@ {
            Action::Shift(0)
        } else {
            Action::Reduce(0)
        },
        None => Action::Reduce(0),
    }
}

/// The preferred actions with one more: it takes the place of the entry
/// for its symbol, or comes last where there is none.
pub open spec fn with_action(list: Seq<(usize, Action)>, entry: (usize, Action)) -> Seq<
    (usize, Action),
> {
    let at = first_with(list, entry.0, 0);
    if at < list.len() {
        list.update(at, entry)
    } else {
        list.push(entry)
    }
}

/// The preferred actions after the first `upto` entries of the
/// definition; an entry under a name without an ID changes nothing.
pub open spec fn with_actions(
    list: Seq<(usize, Action)>,
    names: Seq<Seq<char>>,
    actions: Seq<(String, Option<String>)>,
    upto: nat,
) -> Seq<(usize, Action)>
    decreases upto,
{
    if upto == 0 {
        list
    } else {
        let rest = with_actions(list, names, actions, (upto - 1) as nat);
        if names.contains(actions[upto - 1].0@) {
            with_action(rest, (id_of(names, actions[upto - 1].0@), choice_of(actions[upto - 1].1)))
        } else {
            rest
        }
    }
}

/// The preferred actions of a definition.
pub open spec fn choices(definition: Definition) -> Seq<(usize, Action)> {
    with_actions(
        Seq::empty(),
        reading(definition).names,
        definition.actions@,
        definition.actions.len() as nat,
    )
}

/// The token names a terminal and its pattern cannot be made a matcher.
pub open spec fn bad_token(definition: Definition, k: int) -> bool {
    is_terminal_name(reading(definition).names, definition.rules@, definition.tokens[k].0@)
        && !usable(definition.tokens[k].1)
}

/// The ignored pattern cannot be made a matcher.
pub open spec fn bad_ignore(definition: Definition, k: int) -> bool {
    !usable(definition.ignore[k].1)
}

/// The entry names a symbol and its action is neither `shift` nor `reduce`.
pub open spec fn bad_action(definition: Definition, k: int) -> bool {
    reading(definition).names.contains(definition.actions[k].0@) && !is_choice(
        definition.actions[k].1,
    )
}

/// None of the first `upto` tokens is bad.
pub open spec fn tokens_fine(definition: Definition, upto: int) -> bool {
    forall|j: int| 0 <= j < upto ==> !#[trigger] bad_token(definition, j)
}

/// None of the first `upto` ignored patterns is bad.
pub open spec fn ignore_fine(definition: Definition, upto: int) -> bool {
    forall|j: int| 0 <= j < upto ==> !#[trigger] bad_ignore(definition, j)
}

/// None of the first `upto` preferred actions is bad.
pub open spec fn actions_fine(definition: Definition, upto: int) -> bool {
    forall|j: int| 0 <= j < upto ==> !#[trigger] bad_action(definition, j)
}

/// The error for a pattern that cannot be made a matcher: the text
/// between `^` and `$` that is no regular expression, or the name under which
/// something else than a text or a list of texts stands.
pub open spec fn pattern_error(name: Seq<char>, pattern: TokenPattern, error: Error) -> bool {
    match pattern {
        TokenPattern::Regex(text) => error matches Error::Regex(source) && source@ == seq!['^']
            + text@ + seq!['$'],
        TokenPattern::Group(_) => false,
        TokenPattern::Other => error matches Error::Token(symbol) && symbol@ == name,
    }
}

/// The error for a preferred action that is neither `shift` nor
/// `reduce`: the name under which it stands.
pub open spec fn action_error(name: Seq<char>, error: Error) -> bool {
    error matches Error::Action(symbol) && symbol@ == name
}

/// The definition can be made a grammar: it has rules, and no token, no
/// ignored pattern and no preferred action is bad.
pub open spec fn accepted(definition: Definition) -> bool {
    &&& definition.rules.len() > 0
    &&& tokens_fine(definition, definition.tokens.len() as int)
    &&& ignore_fine(definition, definition.ignore.len() as int)
    &&& actions_fine(definition, definition.actions.len() as int)
}

/// The error names the first thing that is wrong with the definition:
/// that it has no rules, else its first bad token, else its first bad ignored
/// pattern, else its first bad preferred action.
pub open spec fn refused(definition: Definition, error: Error) -> bool {
    if definition.rules.len() == 0 {
        error matches Error::File(text) && text@ == "No rules defined"@
    } else if !tokens_fine(definition, definition.tokens.len() as int) {
        exists|k: int|
            0 <= k < definition.tokens.len() && #[trigger] bad_token(definition, k) && tokens_fine(
                definition,
                k,
            ) && pattern_error(definition.tokens[k].0@, definition.tokens[k].1, error)
    } else if !ignore_fine(definition, definition.ignore.len() as int) {
        exists|k: int|
            0 <= k < definition.ignore.len() && #[trigger] bad_ignore(definition, k) && ignore_fine(
                definition,
                k,
            ) && pattern_error(definition.ignore[k].0@, definition.ignore[k].1, error)
    } else {
        exists|k: int|
            0 <= k < definition.actions.len() && #[trigger] bad_action(definition, k)
                && actions_fine(definition, k) && action_error(definition.actions[k].0@, error)
    }
}

/// Constructs the grammar of a definition.
///
/// The internal symbols come first, then the start symbol; the other
/// symbols follow in the order in which the rules name them. A name with
/// rules is a nonterminal, any other name a terminal. Rule 0 is the
/// augmentation rule; the rules of the definition follow in their order, each
/// head and body once. A terminal is matched by its pattern, or as the text
/// of its name where it has none; ignored patterns stand for ϵ. A preferred
/// action takes the place of an earlier one for its symbol. What is said of
/// a name that the rules do not hold is passed over; the error is that of
/// the first token, else ignored pattern, else preferred action that cannot
/// be used.
pub fn build(definition: &Definition) -> (result: Result<Grammar, Error>)
    ensures
        match result {
            Ok(grammar) => {
                &&& accepted(*definition)
                &&& grammar.wf()
                &&& grammar.name@ == definition.name@
                &&& grammar.description@ == definition.description@
                &&& grammar.start_symbol == INTERNAL
                &&& symbols_read(
                    grammar.symbols@,
                    definition.rules@,
                    reading(*definition).names,
                )
                &&& reading(*definition).names[0] == start_name(*definition)
                &&& rules_read(grammar.rules@, reading(*definition).rules)
                &&& shaped(grammar.tokens@, shapes(*definition))
                &&& grammar.actions@ == choices(*definition)
            },
            Err(error) => !accepted(*definition) && refused(*definition, error),
        },
        acceptable(*definition) ==> result is Ok,
{
    if definition.rules.len() == 0 {
        return Err(Error::File("No rules defined".to_owned()));
    }
    let mut symbols = Symbol::internal();
    let start_name: String = match &definition.start_symbol {
        Some(name) => name.clone(),
        None => definition.rules[0].0.clone(),
    };
    let start_symbol = symbols.len();
    symbols.push(Symbol::NonTerminal(start_symbol, start_name.clone()));
    let mut names: Vec<(String, usize)> = Vec::new();
    names.push((start_name, start_symbol));
    let mut first_body: Vec<usize> = Vec::new();
    first_body.push(END);
    first_body.push(start_symbol);
    first_body.push(END);
    let mut first_follow: Vec<usize> = Vec::new();
    first_follow.push(NULL);
    let mut rules: Vec<Rule> = Vec::new();
    rules.push(Rule::new(0, START, first_body, first_follow));
    let ghost first_symbols = symbols@;
    let ghost keys = definition.rules@;
    let ghost init = unread(*definition);
    let ghost mut cur = init;
    proof {
        assert(rules[0].body@ =~= seq![END, INTERNAL, END]);
        assert(rules[0].follow@ =~= seq![NULL]);
        assert(symbols_ok(symbols@));
        assert(rules_ok(rules@, symbols.len() as nat));
        assert(listed(names@, cur.names));
        assert(symbols_read(symbols@, keys, cur.names));
        assert(rules_read(rules@, cur.rules));
    }
    let mut k: usize = 0;
    while k < definition.rules.len()
        invariant
            k <= definition.rules.len(),
            keys == definition.rules@,
            listed(names@, cur.names),
            symbols_read(symbols@, keys, cur.names),
            rules_read(rules@, cur.rules),
            rules_ok(rules@, symbols.len() as nat),
            first_symbols.is_prefix_of(symbols@),
            cur == read_rules(init, keys, k as nat),
            cur.names[0] == init.names[0],
        decreases definition.rules.len() - k,
    {
        let name = &definition.rules[k].0;
        let alternatives = &definition.rules[k].1;
        let ghost outer = cur;
        let mut a: usize = 0;
        while a < alternatives.len()
            invariant
                a <= alternatives.len(),
                k < keys.len(),
                *name == keys[k as int].0,
                *alternatives == keys[k as int].1,
                keys == definition.rules@,
                listed(names@, cur.names),
                symbols_read(symbols@, keys, cur.names),
                rules_read(rules@, cur.rules),
                rules_ok(rules@, symbols.len() as nat),
                first_symbols.is_prefix_of(symbols@),
                cur == read_alternatives(outer, name@, alternatives@, a as nat),
                cur.names[0] == init.names[0],
            decreases alternatives.len() - a,
        {
            let words = split_names(alternatives[a].as_str());
            let ghost texts = names_from(alternatives[a as int]@, 0);
            let ghost base = cur.names;
            let ghost mut seen = base;
            let mut body: Vec<usize> = Vec::new();
            if words.len() == 0 {
                body.push(NULL);
            } else {
                let mut w: usize = 0;
                while w < words.len()
                    invariant
                        w <= words.len(),
                        words.len() > 0,
                        words.len() == texts.len(),
                        forall|i: int| 0 <= i < words.len() ==> (#[trigger] words[i])@ == texts[i],
                        body.len() == w,
                        keys == definition.rules@,
                        listed(names@, seen),
                        symbols_read(symbols@, keys, seen),
                        seen == with_words(base, texts, w as nat),
                        seen[0] == init.names[0],
                        rules_ok(rules@, symbols.len() as nat),
                        first_symbols.is_prefix_of(symbols@),
                        forall|i: int| 0 <= i < body.len() ==> at_id(seen, texts[i], #[trigger] body[i]),
                    decreases words.len() - w,
                {
                    let ghost count = symbols.len();
                    let ghost before = seen;
                    let is_terminal = !has_rules(&definition.rules, words[w].as_str());
                    let id = intern(
                        words[w].as_str(),
                        is_terminal,
                        &mut names,
                        &mut symbols,
                        Ghost(keys),
                        Ghost(seen),
                    );
                    body.push(id);
                    proof {
                        seen = with_name(seen, texts[w as int]);
                        assert forall|r: int| 0 <= r < rules.len() implies (#[trigger] rules[r])@.valid_in(
                            r,
                            symbols.len() as nat,
                        ) by {
                            assert(rules[r]@.valid_in(r, count as nat));
                        }
                        assert forall|i: int| 0 <= i < body.len() implies at_id(
                            seen,
                            texts[i],
                            #[trigger] body[i],
                        ) by {
                            if i < w {
                                assert(at_id(before, texts[i], body[i]));
                            }
                        }
                    }
                    w += 1;
                }
            }
            let ghost count = symbols.len();
            let ghost mid = seen;
            proof {
                assert(keys[k as int].0@ == name@);
                assert(is_key(keys, name@));
            }
            let head = intern(
                name.as_str(),
                false,
                &mut names,
                &mut symbols,
                Ghost(keys),
                Ghost(seen),
            );
            let rule = Rule::new(rules.len(), head, body, Vec::new());
            proof {
                seen = with_name(seen, name@);
                assert forall|r: int| 0 <= r < rules.len() implies (#[trigger] rules[r])@.valid_in(
                    r,
                    symbols.len() as nat,
                ) by {
                    assert(rules[r]@.valid_in(r, count as nat));
                }
                lemma_id_of(seen, name@, head);
                assert(rule.body@ =~= body_of(seen, texts)) by {
                    if texts.len() > 0 {
                        assert forall|i: int| 0 <= i < texts.len() implies rule.body@[i] == id_of(
                            seen,
                            texts[i],
                        ) by {
                            assert(at_id(mid, texts[i], rule.body[i]));
                            lemma_id_of(seen, texts[i], rule.body[i]);
                        }
                    }
                }
                assert forall|i: int| 0 <= i < rule.body.len() implies #[trigger] rule.body[i]
                    < symbols.len() && rule.body[i] != END by {
                    if texts.len() > 0 {
                        assert(at_id(mid, texts[i], rule.body[i]));
                    }
                }
            }
            let ghost model = (head, rule.body@);
            let ghost before = rules@;
            let found = holds_rule(&rules, &rule);
            proof {
                if found {
                    let r = choose|r: int| 0 <= r < rules.len() && (#[trigger] rules[r]).eq_spec(&rule);
                    assert(cur.rules[r] == model);
                    assert(cur.rules.contains(model));
                } else {
                    if cur.rules.contains(model) {
                        let r = choose|r: int| 0 <= r < cur.rules.len() && cur.rules[r] == model;
                        assert(rules[r].eq_spec(&rule));
                    }
                }
            }
            if !found {
                rules.push(rule);
                proof {
                    assert forall|r: int| 0 <= r < rules.len() implies (#[trigger] rules[r])@.valid_in(
                        r,
                        symbols.len() as nat,
                    ) by {
                        if r < before.len() {
                            assert(rules[r] == before[r]);
                        }
                    }
                    assert(rules[0] == before[0]);
                    assert forall|r: int| 0 <= r < before.len() implies rules[r] == before[r] by {}
                }
            }
            proof {
                let next = read_alternative(cur, name@, alternatives[a as int]@);
                assert(next.names == seen);
                assert(next.rules == with_rule(cur.rules, model));
                cur = next;
            }
            a += 1;
        }
        k += 1;
    }
    let ghost read = cur.names;
    let ghost d = *definition;
    proof {
        assert(cur == reading(d));
    }
    // Generate matchers for all terminal symbols.
    let mut matchers: Vec<(usize, Matcher)> = Vec::new();
    let ghost mut made: Seq<(usize, Shape)> = Seq::empty();
    let mut s: usize = 0;
    while s < symbols.len()
        invariant
            s <= symbols.len(),
            symbols_read(symbols@, keys, read),
            shaped(matchers@, made),
            s <= INTERNAL ==> made.len() == 0,
            s >= INTERNAL ==> made == literal_shapes(read, keys, (s - INTERNAL) as nat),
            forall|x: usize|
                #[trigger] has_entry(made, x) <==> x < s && symbols[x as int] is Terminal,
        decreases symbols.len() - s,
    {
        let ghost before = made;
        match &symbols[s] {
            Symbol::Terminal(id, name) => {
                matchers.push((*id, Matcher::Text(name.clone())));
                proof {
                    assert(symbols[s as int].spec_id() == s);
                    if s >= INTERNAL {
                        assert(named_so(
                            symbols[INTERNAL + (s - INTERNAL)],
                            s - INTERNAL != 0 && !is_key(keys, read[s - INTERNAL]),
                            read[s - INTERNAL],
                        ));
                    }
                    made = made.push((s, Shape::Text(name@)));
                    assert(made[made.len() - 1].0 == s);
                }
            },
            _ => {
                proof {
                    if s >= INTERNAL {
                        assert(named_so(
                            symbols[INTERNAL + (s - INTERNAL)],
                            s - INTERNAL != 0 && !is_key(keys, read[s - INTERNAL]),
                            read[s - INTERNAL],
                        ));
                    }
                }
            },
        }
        proof {
            assert forall|x: usize| #[trigger] has_entry(made, x) <==> x < s + 1 && symbols[x as int] is Terminal by {
                if has_entry(made, x) {
                    let i = choose|i: int| 0 <= i < made.len() && (#[trigger] made[i]).0 == x;
                    if i < before.len() {
                        assert(before[i].0 == x);
                        assert(has_entry(before, x));
                    }
                }
                if x < s && symbols[x as int] is Terminal {
                    assert(has_entry(before, x));
                    let i = choose|i: int| 0 <= i < before.len() && (#[trigger] before[i]).0 == x;
                    assert(made[i].0 == x);
                }
            }
        }
        s += 1;
    }
    let ghost literal = made;
    let mut t: usize = 0;
    while t < definition.tokens.len()
        invariant
            t <= definition.tokens.len(),
            d == *definition,
            d.rules.len() > 0,
            keys == d.rules@,
            read == reading(d).names,
            listed(names@, read),
            symbols_read(symbols@, keys, read),
            shaped(matchers@, made),
            made == with_tokens(literal, read, keys, d.tokens@, t as nat),
            forall|x: usize|
                #[trigger] has_entry(made, x) <==> x < symbols.len() && symbols[x as int] is Terminal,
            tokens_fine(d, t as int),
        decreases definition.tokens.len() - t,
    {
        let name = &definition.tokens[t].0;
        match find_name(&names, name.as_str()) {
            Some(symbol) => {
                let ghost k = choose|k: int|
                    0 <= k < names.len() && (#[trigger] names[k]).0@ == name@ && names[k].1
                        == symbol;
                proof {
                    assert(read[k] == name@);
                    assert(read.contains(name@));
                    lemma_id_of(read, name@, symbol);
                    assert(named_so(
                        symbols[INTERNAL + k],
                        k != 0 && !is_key(keys, read[k]),
                        read[k],
                    ));
                    assert(is_terminal_name(read, keys, name@) <==> symbols[symbol as int] is Terminal);
                }
                let mut at: usize = 0;
                while at < matchers.len() && matchers[at].0 != symbol
                    invariant
                        at <= matchers.len(),
                        shaped(matchers@, made),
                        first_with(made, symbol, 0) == first_with(made, symbol, at as int),
                        forall|j: int| 0 <= j < at ==> (#[trigger] made[j]).0 != symbol,
                    decreases matchers.len() - at,
                {
                    at += 1;
                }
                if at < matchers.len() {
                    let ghost before = made;
                    proof {
                        assert(made[at as int].0 == symbol);
                        assert(has_entry(made, symbol));
                    }
                    matchers.remove(at);
                    let matcher = match create_matcher(name.as_str(), &definition.tokens[t].1) {
                        Ok(matcher) => matcher,
                        Err(error) => {
                            proof {
                                assert(bad_token(d, t as int));
                            }
                            return Err(error);
                        },
                    };
                    matchers.push((symbol, matcher));
                    proof {
                        made = before.remove(at as int).push(
                            (symbol, Shape::Pattern(d.tokens[t as int].1)),
                        );
                        assert(made == with_token(before, read, keys, d.tokens[t as int]));
                        assert(!bad_token(d, t as int));
                        assert forall|x: usize| #[trigger]
                            has_entry(made, x) <==> has_entry(before, x) by {
                            if has_entry(made, x) {
                                let i = choose|i: int|
                                    0 <= i < made.len() && (#[trigger] made[i]).0 == x;
                                if i == made.len() - 1 {
                                    assert(x == symbol);
                                } else if i < at {
                                    assert(before[i].0 == x);
                                } else {
                                    assert(before[i + 1].0 == x);
                                }
                            }
                            if has_entry(before, x) {
                                let i = choose|i: int|
                                    0 <= i < before.len() && (#[trigger] before[i]).0 == x;
                                if x == symbol {
                                    assert(made[made.len() - 1].0 == x);
                                } else if i < at {
                                    assert(made[i].0 == x);
                                } else {
                                    assert(made[i - 1].0 == x);
                                }
                            }
                        }
                    }
                } else {
                    proof {
                        assert(!has_entry(made, symbol));
                        assert(!bad_token(d, t as int));
                    }
                }
            },
            None => {
                proof {
                    if read.contains(name@) {
                        let j = choose|j: int| 0 <= j < read.len() && read[j] == name@;
                        assert(names[j].0@ == name@);
                    }
                    assert(!bad_token(d, t as int));
                }
            },
        }
        t += 1;
    }
    // All ignored tokens correspond to ϵ symbols.
    let ghost tokens = made;
    proof {
        assert forall|i: int| 0 <= i < made.len() implies (#[trigger] made[i]).0
            < symbols.len() by {
            assert(has_entry(made, made[i].0));
        }
    }
    let mut t: usize = 0;
    while t < definition.ignore.len()
        invariant
            t <= definition.ignore.len(),
            d == *definition,
            d.rules.len() > 0,
            tokens_fine(d, d.tokens.len() as int),
            symbols_read(symbols@, keys, read),
            shaped(matchers@, made),
            made == with_ignored(tokens, d.ignore@, t as nat),
            forall|i: int| 0 <= i < made.len() ==> (#[trigger] made[i]).0 < symbols.len(),
            ignore_fine(d, t as int),
        decreases definition.ignore.len() - t,
    {
        let matcher = match create_matcher(
            definition.ignore[t].0.as_str(),
            &definition.ignore[t].1,
        ) {
            Ok(matcher) => matcher,
            Err(error) => {
                proof {
                    assert(bad_ignore(d, t as int));
                }
                return Err(error);
            },
        };
        matchers.push((NULL, matcher));
        proof {
            made = made.push((NULL, Shape::Pattern(d.ignore[t as int].1)));
            assert(!bad_ignore(d, t as int));
        }
        t += 1;
    }
    let mut actions: Vec<(usize, Action)> = Vec::new();
    let mut t: usize = 0;
    while t < definition.actions.len()
        invariant
            t <= definition.actions.len(),
            d == *definition,
            d.rules.len() > 0,
            tokens_fine(d, d.tokens.len() as int),
            ignore_fine(d, d.ignore.len() as int),
            read == reading(d).names,
            listed(names@, read),
            symbols_read(symbols@, keys, read),
            forall|i: int| 0 <= i < actions.len() ==> (#[trigger] actions[i]).0 < symbols.len(),
            actions@ == with_actions(Seq::empty(), read, d.actions@, t as nat),
            actions_fine(d, t as int),
        decreases definition.actions.len() - t,
    {
        let name = &definition.actions[t].0;
        match find_name(&names, name.as_str()) {
            Some(symbol) => {
                proof {
                    let k = choose|k: int|
                        0 <= k < names.len() && (#[trigger] names[k]).0@ == name@ && names[k].1
                            == symbol;
                    assert(read[k] == name@);
                    assert(read.contains(name@));
                    lemma_id_of(read, name@, symbol);
                }
                let action = match &definition.actions[t].1 {
                    Some(text) => {
                        if same_text(text.as_str(), "shift") {
                            Action::Shift(0)
                        } else if same_text(text.as_str(), "reduce") {
                            Action::Reduce(0)
                        } else {
                            proof {
                                assert(bad_action(d, t as int));
                            }
                            return Err(Error::Action(name.clone()));
                        }
                    },
                    None => {
                        proof {
                            assert(bad_action(d, t as int));
                        }
                        return Err(Error::Action(name.clone()));
                    },
                };
                proof {
                    assert(action == choice_of(d.actions[t as int].1));
                    assert(!bad_action(d, t as int));
                }
                let mut at: usize = 0;
                while at < actions.len() && actions[at].0 != symbol
                    invariant
                        at <= actions.len(),
                        first_with(actions@, symbol, 0) == first_with(actions@, symbol, at as int),
                    decreases actions.len() - at,
                {
                    at += 1;
                }
                if at < actions.len() {
                    actions[at] = (symbol, action);
                } else {
                    actions.push((symbol, action));
                }
            },
            None => {
                proof {
                    if read.contains(name@) {
                        let j = choose|j: int| 0 <= j < read.len() && read[j] == name@;
                        assert(names[j].0@ == name@);
                    }
                    assert(!bad_action(d, t as int));
                }
            },
        }
        t += 1;
    }
    proof {
        assert(symbols[INTERNAL as int] == first_symbols[INTERNAL as int]);
        let g = crate::analysis::GrammarView {
            symbols: symbols@,
            rules: rule_views(rules@),
            start: start_symbol,
        };
        assert forall|r: int| 0 <= r < g.rules.len() implies (#[trigger] g.rules[r]).valid_in(
            r,
            g.symbols.len(),
        ) by {
            assert(rules[r]@.valid_in(r, symbols.len() as nat));
        }
        assert(g.rules[0] == rules[0]@);
        assert(g.valid());
        assert forall|i: int| 0 <= i < matchers.len() implies (#[trigger] matchers[i]).0
            < symbols.len() by {
            assert(made[i].0 < symbols.len());
        }
        assert(valid_parts(symbols@, matchers@, start_symbol, rules@, actions@));
        assert(made == shapes(d));
        assert(actions@ == choices(d));
        assert(accepted(d));
    }
    Ok(
        Grammar::new(
            definition.name.clone(),
            definition.description.clone(),
            symbols,
            matchers,
            start_symbol,
            rules,
            actions,
        ),
    )
}

} // verus!

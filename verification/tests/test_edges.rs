use std::collections::BTreeSet;

use dfa_regex::automata::{Automata, TransitionType};
use dfa_regex::debug::{AutomataDebug, AutomataPrinter};
use dfa_regex::lexer::{tokenize_regex_str, Lexer, Token, TokenTypes};
use dfa_regex::parser::{
    decimal_text, parse_regex, try_parse_regex, CharacterClassBinaryOp, CharacterClassType,
    ParseFailure, RegexAST, UnaryOp,
};
use dfa_regex::sets::{difference, insert_all, intersects, same_items, set_items};
use dfa_regex::{Error, Regex};

#[test]
fn empty_pattern_is_one_eof() {
    assert_eq!(tokenize_regex_str(""), vec![Token::new(TokenTypes::Eof, 1, 1)]);
}

#[test]
fn unterminated_class_ends_in_two_eofs() {
    assert_eq!(
        tokenize_regex_str("[ab"),
        vec![
            Token::new(TokenTypes::OpenBracket, 0, 1),
            Token::new(TokenTypes::Symbol('a'), 1, 2),
            Token::new(TokenTypes::Union, 0, 0),
            Token::new(TokenTypes::Symbol('b'), 2, 3),
            Token::new(TokenTypes::Eof, 4, 4),
            Token::new(TokenTypes::Eof, 4, 4),
        ]
    );
}

#[test]
fn dash_next_to_a_bracket_is_a_symbol() {
    assert_eq!(
        tokenize_regex_str("[-a]"),
        vec![
            Token::new(TokenTypes::OpenBracket, 0, 1),
            Token::new(TokenTypes::Symbol('-'), 1, 2),
            Token::new(TokenTypes::Union, 0, 0),
            Token::new(TokenTypes::Symbol('a'), 2, 3),
            Token::new(TokenTypes::CloseBracket, 3, 4),
            Token::new(TokenTypes::Eof, 5, 5),
        ]
    );
}

#[test]
fn operators_inside_a_class_are_symbols() {
    assert_eq!(
        tokenize_regex_str("[*(]a"),
        vec![
            Token::new(TokenTypes::OpenBracket, 0, 1),
            Token::new(TokenTypes::Symbol('*'), 1, 2),
            Token::new(TokenTypes::Union, 0, 0),
            Token::new(TokenTypes::Symbol('('), 2, 3),
            Token::new(TokenTypes::CloseBracket, 3, 4),
            Token::new(TokenTypes::Concatenation, 0, 0),
            Token::new(TokenTypes::Symbol('a'), 4, 5),
            Token::new(TokenTypes::Eof, 6, 6),
        ]
    );
}

#[test]
fn token_keeps_its_span() {
    let token = Token::new(TokenTypes::Union, 3, 4);
    assert_eq!(token.position(), 3..4);
    assert_eq!(token.ty, TokenTypes::Union);
}

#[test]
fn lexer_steps_back_at_the_end() {
    let mut lexer = Lexer::new("a");
    assert_eq!(lexer.peek_token(), Some(Token::new(TokenTypes::Symbol('a'), 0, 1)));
    assert_eq!(lexer.next_token(), Token::new(TokenTypes::Symbol('a'), 0, 1));
    assert_eq!(lexer.next_token(), Token::new(TokenTypes::Eof, 2, 2));
    assert_eq!(lexer.peek_token(), None);
    assert_eq!(lexer.next_token(), Token::new(TokenTypes::Eof, 2, 2));
    assert_eq!(lexer.peek_token(), Some(Token::new(TokenTypes::Eof, 2, 2)));
}

#[test]
fn decimal_text_of_numbers() {
    assert_eq!(decimal_text(0), "0");
    assert_eq!(decimal_text(7), "7");
    assert_eq!(decimal_text(10), "10");
    assert_eq!(decimal_text(1234567890), "1234567890");
}

#[test]
fn every_failure_has_its_report() {
    for (pattern, failure, error) in [
        (
            "(",
            ParseFailure::EmptyGroup,
            Error::Syntax("Invalid group: missing closing parenthesis!".to_string()),
        ),
        (
            "aaaaaaaaaaaa(zxv",
            ParseFailure::UnclosedGroup(12),
            Error::Syntax(
                "Parenthesis at position 12 doesn't have a closing parenthesis!".to_string(),
            ),
        ),
        (
            "ab[abc",
            ParseFailure::UnclosedClass(2),
            Error::Syntax("Brackets at position 2 doesn't have a closing brackets!".to_string()),
        ),
        (
            "+",
            ParseFailure::StrayClosure(UnaryOp::ClosurePlus),
            Error::Syntax(
                "Invalid Closure: ClosurePlus operator needs a preceding literal, e.g. \"a+\", \"(ab)+\", \"(a|c)+\"."
                    .to_string(),
            ),
        ),
        (
            "a|*",
            ParseFailure::StrayClosure(UnaryOp::ClosureStar),
            Error::Syntax(
                "Invalid Closure: ClosureStar operator needs a preceding literal, e.g. \"a*\", \"(ab)*\", \"(a|c)*\"."
                    .to_string(),
            ),
        ),
        (
            "a||b",
            ParseFailure::StrayUnion,
            Error::Syntax(
                "Invalid Union: the union operator \"|\" needs to be between two literals, e.g. \"ab|cd\", \"a|z\", \"1*|0*\"."
                    .to_string(),
            ),
        ),
        (")", ParseFailure::UnmatchedParenthesis, Error::Syntax("Unmatched parenthesis.".to_string())),
        ("]", ParseFailure::UnmatchedBracket, Error::Syntax("Unmatched bracket.".to_string())),
        (
            "a+*",
            ParseFailure::StackedClosure,
            Error::Syntax(
                "Invalid Closure: ClosureStar operator can't be followed by another Closure Star operator"
                    .to_string(),
            ),
        ),
        (
            "a[",
            ParseFailure::EmptyClass,
            Error::Syntax("Invalid character class: missing closing bracket!".to_string()),
        ),
        (
            "[9-0]",
            ParseFailure::InvalidRange('9', '0'),
            Error::InvalidRange("Invalid Range: \"9\" is bigger than \"0\"!".to_string()),
        ),
    ] {
        assert_eq!(try_parse_regex(pattern), Err(failure), "{}", pattern);
        assert_eq!(failure.report(), error);
        assert_eq!(parse_regex(pattern), Err(error), "{}", pattern);
    }
}

#[test]
fn token_without_a_place_is_unsupported() {
    assert_eq!(
        try_parse_regex("a]"),
        Err(ParseFailure::Unsupported(TokenTypes::CloseBracket))
    );
    assert_eq!(try_parse_regex("[]"), Err(ParseFailure::Unsupported(TokenTypes::CloseBracket)));
    assert!(Regex::try_new("a]").is_none());
    assert!(Regex::try_new("[]").is_none());
}

#[test]
fn range_of_ranges_is_not_compiled() {
    assert_eq!(
        try_parse_regex("[a-b-c]"),
        Ok(RegexAST::CharacterClass(CharacterClassType::Binary(
            Box::new(CharacterClassType::Single('a')),
            CharacterClassBinaryOp::Range,
            Box::new(CharacterClassType::Binary(
                Box::new(CharacterClassType::Single('b')),
                CharacterClassBinaryOp::Range,
                Box::new(CharacterClassType::Single('c')),
            )),
        )))
    );
    assert!(Regex::try_new("[a-b-c]").is_none());
}

#[test]
fn try_new_compiles_what_new_compiles() {
    let re = Regex::try_new("(ab|cd)+").unwrap().unwrap();
    assert!(re.is_match("abcd"));
    assert!(!re.is_match(""));
    assert_eq!(
        Regex::try_new("a**").unwrap().unwrap_err(),
        Error::Syntax(
            "Invalid Closure: ClosureStar operator can't be followed by another Closure Star operator"
                .to_string()
        )
    );
}

#[test]
fn closing_parenthesis_ends_the_pattern() {
    assert_eq!(parse_regex("a)b"), Ok(RegexAST::Symbol('a')));
    let re = Regex::new("a)b").unwrap();
    assert!(re.is_match("a"));
    assert!(!re.is_match("ab"));
}

#[test]
fn empty_pattern_matches_only_the_empty_text() {
    let re = Regex::new("").unwrap();
    assert!(re.is_match(""));
    assert!(!re.is_match("a"));
    assert!(!re.is_match(" "));
}

#[test]
fn missing_transition_rejects_the_text() {
    let re = Regex::new("ab").unwrap();
    assert!(!re.is_match("ax"));
    assert!(!re.is_match("xab"));
    assert!(!re.is_match("abx"));
    assert!(re.is_match("ab"));
}

#[test]
fn range_skips_what_is_no_character() {
    let re = Regex::new("[\u{D7FE}-\u{E001}]").unwrap();
    assert!(re.is_match("\u{D7FF}"));
    assert!(re.is_match("\u{E000}"));
    assert!(!re.is_match("\u{E002}"));
    let symbols: BTreeSet<TransitionType> =
        re.automaton.edges().iter().map(|edge| edge.1).collect();
    assert_eq!(
        symbols,
        BTreeSet::from([
            TransitionType::Symbol('\u{D7FE}'),
            TransitionType::Symbol('\u{D7FF}'),
            TransitionType::Symbol('\u{E000}'),
            TransitionType::Symbol('\u{E001}'),
        ])
    );
}

#[test]
fn edges_come_in_key_order() {
    let mut automata = Automata::new(2);
    automata.add_transition(2, TransitionType::Symbol('b'), 1);
    automata.add_transition(2, TransitionType::Symbol('a'), 3);
    automata.add_transition(2, TransitionType::Epsilon, 0);
    automata.add_transition(1, TransitionType::Symbol('z'), 2);
    automata.add_transition(2, TransitionType::Symbol('a'), 0);
    assert_eq!(
        automata.edges(),
        vec![
            (1, TransitionType::Symbol('z'), 2),
            (2, TransitionType::Epsilon, 0),
            (2, TransitionType::Symbol('a'), 0),
            (2, TransitionType::Symbol('a'), 3),
            (2, TransitionType::Symbol('b'), 1),
        ]
    );
    assert_eq!(automata.alphabet(), vec!['a', 'b', 'z']);
    assert_eq!(automata.states(), BTreeSet::from([0, 1, 2, 3]));
    assert_eq!(
        automata.next_state(2, TransitionType::Symbol('a')),
        Some(&BTreeSet::from([0, 3]))
    );
    assert_eq!(automata.next_state(0, TransitionType::Epsilon), None);
    assert_eq!(
        automata.delta(&BTreeSet::from([1, 2]), TransitionType::Symbol('a')),
        BTreeSet::from([0, 3])
    );
}

#[test]
fn merge_and_remove_change_the_edges() {
    let mut first = Automata::new(0);
    first.add_transition(0, TransitionType::Symbol('a'), 1);
    first.add_final_state(1);
    let mut second = Automata::new(2);
    second.add_transition(0, TransitionType::Symbol('a'), 3);
    second.add_transition(2, TransitionType::Epsilon, 3);
    second.add_final_state(3);
    first.merge_automata(second);
    assert_eq!(first.start_state(), 0);
    assert_eq!(first.final_states(), &BTreeSet::from([1, 3]));
    assert_eq!(
        first.edges(),
        vec![
            (0, TransitionType::Symbol('a'), 1),
            (0, TransitionType::Symbol('a'), 3),
            (2, TransitionType::Epsilon, 3),
        ]
    );
    first.remove_state(0);
    assert_eq!(first.edges(), vec![(2, TransitionType::Epsilon, 3)]);
    first.clear_final_states();
    assert_eq!(first.final_states(), &BTreeSet::new());
}

#[test]
fn printer_draws_nodes_and_joined_labels() {
    let mut automata = Automata::new(0);
    automata.add_transition(0, TransitionType::Symbol('b'), 11);
    automata.add_transition(0, TransitionType::Symbol('a'), 11);
    automata.add_transition(11, TransitionType::Epsilon, 0);
    automata.add_final_state(11);
    let printer = AutomataPrinter::new(&automata);
    assert_eq!(printer.nodes(), &vec![(0, "q0".to_string()), (11, "q11".to_string())]);
    assert_eq!(
        printer.edges(),
        &vec![(0, "a, b".to_string(), 11), (11, "&epsilon;".to_string(), 0)]
    );
    assert_eq!(printer.start_state(), 0);
    assert_eq!(printer.final_states(), &BTreeSet::from([11]));
}

#[test]
fn printer_joins_labels_in_key_order() {
    let mut automata = Automata::new(0);
    automata.add_transition(0, TransitionType::Symbol('a'), 1);
    automata.add_transition(0, TransitionType::Epsilon, 1);
    automata.add_final_state(1);
    let printer = AutomataPrinter::new(&automata);
    assert_eq!(printer.nodes(), &vec![(0, "q0".to_string()), (1, "q1".to_string())]);
    assert_eq!(printer.edges(), &vec![(0, "&epsilon;, a".to_string(), 1)]);
    assert_eq!(printer.start_state(), 0);
    assert_eq!(printer.final_states(), &BTreeSet::from([1]));
}

#[test]
fn printer_draws_a_state_without_edges() {
    let mut automata = Automata::new(4);
    automata.add_final_state(2);
    let printer = AutomataPrinter::new(&automata);
    assert_eq!(printer.nodes(), &vec![(2, "q2".to_string()), (4, "q4".to_string())]);
    assert_eq!(printer.edges(), &vec![]);
}

#[test]
fn transitions_are_a_table_in_key_order() {
    let mut automata = Automata::new(0);
    automata.add_transition(1, TransitionType::Symbol('b'), 3);
    automata.add_transition(0, TransitionType::Symbol('a'), 2);
    automata.add_transition(1, TransitionType::Symbol('b'), 0);
    automata.add_transition(0, TransitionType::Epsilon, 1);
    assert_eq!(
        AutomataDebug::transitions(&automata),
        vec![
            ((0, TransitionType::Epsilon), BTreeSet::from([1])),
            ((0, TransitionType::Symbol('a')), BTreeSet::from([2])),
            ((1, TransitionType::Symbol('b')), BTreeSet::from([0, 3])),
        ]
    );
    let re = Regex::new("a").unwrap();
    for (_, targets) in AutomataDebug::transitions(&re.automaton) {
        assert_eq!(targets.len(), 1);
    }
}

#[test]
fn compiled_automaton_can_be_inspected() {
    let re = Regex::new("a").unwrap();
    assert_eq!(AutomataDebug::start_state(&re.automaton), 0);
    assert_eq!(AutomataDebug::states(&re.automaton).len(), 3);
    assert_eq!(AutomataDebug::transitions(&re.automaton).len(), 3);
    assert_eq!(AutomataDebug::final_states(&re.automaton).len(), 1);
    let printer = AutomataPrinter::new(&re.automaton);
    assert_eq!(printer.nodes().len(), 3);
    assert_eq!(printer.edges().len(), 3);
}

#[test]
fn set_operations() {
    let left = BTreeSet::from([1, 2, 3]);
    let right = BTreeSet::from([3, 4]);
    assert_eq!(set_items(&left), vec![1, 2, 3]);
    assert_eq!(difference(&left, &right), BTreeSet::from([1, 2]));
    assert!(intersects(&left, &right));
    assert!(!intersects(&left, &BTreeSet::from([5])));
    assert!(same_items(&left, &BTreeSet::from([3, 2, 1])));
    assert!(!same_items(&left, &right));
    let mut into = BTreeSet::from([1]);
    insert_all(&mut into, &right);
    assert_eq!(into, BTreeSet::from([1, 3, 4]));
}

#[test]
fn trees_are_cloned_whole() {
    let tree = parse_regex("(ab|[c-e]x)*y+").unwrap();
    assert_eq!(tree.clone(), tree);
    let class = CharacterClassType::Binary(
        Box::new(CharacterClassType::Single('a')),
        CharacterClassBinaryOp::Range,
        Box::new(CharacterClassType::Single('z')),
    );
    assert_eq!(class.clone(), class);
}

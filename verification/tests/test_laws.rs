use std::collections::BTreeSet;

use dfa_regex::automata::{Automata, Dfa, TransitionType};
use dfa_regex::builder::build_automata_from_ast;
use dfa_regex::minimize::{reachable, reverse, subset};
use dfa_regex::parser::{parse_regex, BinaryOp, RegexAST};
use dfa_regex::{Error, Regex};

fn reached_from_start(dfa: &Dfa) -> BTreeSet<usize> {
    let edges = dfa.edges();
    let mut reached = BTreeSet::from([dfa.start_state()]);
    loop {
        let before = reached.len();
        for (from, _, to) in &edges {
            if reached.contains(from) {
                reached.insert(*to);
            }
        }
        if reached.len() == before {
            return reached;
        }
    }
}

fn sample_texts() -> Vec<&'static str> {
    vec!["", "a", "b", "ab", "ba", "aa", "abab", "cd", "abcd", "cdab", "abc", "x", "aab", "abb"]
}

#[test]
fn compiled_automaton_has_one_destination_per_key() {
    for pattern in ["a", "ab|cd", "(ab|cd)*", "[a-zA-Z0-9]+", "a|", ""] {
        let re = Regex::new(pattern).unwrap();
        let edges = re.automaton.edges();
        for (i, first) in edges.iter().enumerate() {
            assert!(matches!(first.1, TransitionType::Symbol(_)));
            for second in &edges[i + 1..] {
                assert!(!(first.0 == second.0 && first.1 == second.1));
            }
        }
    }
}

#[test]
fn compiled_automaton_states_are_reached_from_start() {
    for pattern in ["a", "ab|cd", "(ab|cd)*", "((ab|cd)*|(fg|h)j)+", "[a-c]x"] {
        let re = Regex::new(pattern).unwrap();
        let reached = reached_from_start(&re.automaton);
        for state in re.automaton.states() {
            assert!(reached.contains(&state));
        }
        for state in re.automaton.final_states() {
            assert!(reached.contains(state));
        }
    }
}

#[test]
fn compiling_twice_gives_the_same_automaton() {
    for pattern in ["a", "ab|cd", "(ab|cd)*", "[a-zA-Z0-9+_.-]+@[a-zA-Z0-9.-]+"] {
        let first = Regex::new(pattern).unwrap();
        let second = Regex::new(pattern).unwrap();
        assert_eq!(first.automaton.start_state(), second.automaton.start_state());
        assert_eq!(first.automaton.final_states(), second.automaton.final_states());
        assert_eq!(first.automaton.edges(), second.automaton.edges());
    }
}

#[test]
fn built_automaton_takes_its_states_from_the_counter() {
    let tree = parse_regex("(ab|c)*d+[x-z]").unwrap();
    let mut counter = 7;
    let automata = build_automata_from_ast(tree, &mut counter);
    assert_eq!(counter, 7 + 13);
    assert!(7 <= automata.start_state() && automata.start_state() < counter);
    for state in automata.states() {
        assert!(7 <= state && state < counter);
    }
    for state in automata.final_states() {
        assert!(7 <= *state && *state < counter);
    }
}

#[test]
fn state_count_of_each_node() {
    for (pattern, count) in
        [("a", 2), ("", 2), ("a|b", 5), ("ab", 4), ("a*", 3), ("a+", 3), ("[a-z]", 2), ("[ab]", 5)]
    {
        let mut counter = 0;
        build_automata_from_ast(parse_regex(pattern).unwrap(), &mut counter);
        assert_eq!(counter, count, "{}", pattern);
    }
}

#[test]
fn reversing_twice_keeps_the_accepted_texts() {
    for pattern in ["a", "ab|cd", "(ab|cd)*", "a|", "(a|b)+ab"] {
        let mut counter = 0;
        let automata = build_automata_from_ast(parse_regex(pattern).unwrap(), &mut counter);
        let plain = automata.clone().convert_to_dfa();
        let twice = reverse(reverse(automata)).convert_to_dfa();
        for text in sample_texts() {
            assert_eq!(plain.validate_str(text), twice.validate_str(text), "{} {}", pattern, text);
        }
    }
}

#[test]
fn reversing_an_automaton_without_edges_twice_accepts_nothing() {
    for start in [0, 1, 5] {
        let automata = Automata::new(start);
        assert!(!automata.clone().convert_to_dfa().validate_str(""));
        assert!(!reverse(automata.clone()).convert_to_dfa().validate_str(""));
        let twice = reverse(reverse(automata));
        assert!(!twice.convert_to_dfa().validate_str(""));
    }
}

#[test]
fn reverse_takes_its_start_above_every_state() {
    let turned = reverse(Automata::new(1));
    assert_eq!(turned.start_state(), 2);
    assert_eq!(turned.final_states(), &BTreeSet::from([1]));
    assert_eq!(turned.edges(), vec![]);

    let mut automata = Automata::new(0);
    automata.add_transition(0, TransitionType::Symbol('a'), 1);
    automata.add_final_state(7);
    let turned = reverse(automata);
    assert_eq!(turned.start_state(), 8);
    assert_eq!(
        turned.edges(),
        vec![(1, TransitionType::Symbol('a'), 0), (8, TransitionType::Epsilon, 7)]
    );
}

#[test]
fn states_are_start_finals_and_ends_of_edges() {
    assert_eq!(Automata::new(3).states(), BTreeSet::from([3]));
    let mut automata = Automata::new(3);
    automata.add_final_state(9);
    automata.add_transition(1, TransitionType::Epsilon, 2);
    assert_eq!(automata.states(), BTreeSet::from([1, 2, 3, 9]));
    let dfa = Regex::new("").unwrap().automaton;
    assert_eq!(dfa.states(), BTreeSet::from([0]));
    assert_eq!(dfa.edges(), vec![]);
}

#[test]
fn pruning_keeps_a_final_state_that_is_not_reached() {
    let mut automata = Automata::new(0);
    automata.add_transition(0, TransitionType::Symbol('a'), 1);
    automata.add_transition(2, TransitionType::Symbol('a'), 1);
    automata.add_final_state(2);
    let kept = reachable(automata);
    assert_eq!(kept.states(), BTreeSet::from([0, 1, 2]));
    assert_eq!(kept.edges(), vec![(0, TransitionType::Symbol('a'), 1)]);
}

#[test]
fn pruning_keeps_the_reached_states() {
    let mut automata = Automata::new(0);
    automata.add_transition(0, TransitionType::Symbol('a'), 1);
    automata.add_transition(1, TransitionType::Symbol('b'), 0);
    automata.add_transition(2, TransitionType::Symbol('a'), 1);
    automata.add_transition(3, TransitionType::Symbol('c'), 4);
    let kept = reachable(automata);
    assert_eq!(kept.states(), BTreeSet::from([0, 1]));
    assert_eq!(
        kept.edges(),
        vec![(0, TransitionType::Symbol('a'), 1), (1, TransitionType::Symbol('b'), 0)]
    );
}

#[test]
fn pruning_an_automaton_without_edges_leaves_its_start() {
    let kept = reachable(Automata::new(0));
    assert_eq!(kept.states(), BTreeSet::from([0]));
    assert_eq!(kept.start_state(), 0);
}

#[test]
fn alphabet_of_compiled_automaton_is_that_of_the_pattern() {
    for (pattern, symbols) in
        [("ab|cd", "abcd"), ("(ab)*a", "ab"), ("a|", "a"), ("", ""), ("[a-c]x", "abcx")]
    {
        let re = Regex::new(pattern).unwrap();
        let found: BTreeSet<char> = re
            .automaton
            .edges()
            .iter()
            .map(|edge| match edge.1 {
                TransitionType::Symbol(symbol) => symbol,
                TransitionType::Epsilon => panic!("epsilon edge"),
            })
            .collect();
        assert_eq!(found, symbols.chars().collect::<BTreeSet<char>>(), "{}", pattern);
    }
}

#[test]
fn empty_text_matches_where_the_pattern_allows_it() {
    for (pattern, expected) in [
        ("a*", true),
        ("a|", true),
        ("(ab|cd)*", true),
        ("", true),
        ("a", false),
        ("a+", false),
        ("(a*)+", true),
        ("ab", false),
        ("a*b*", true),
        ("[a-z]", false),
    ] {
        assert_eq!(Regex::new(pattern).unwrap().is_match(""), expected, "{}", pattern);
    }
}

#[test]
fn union_matches_what_either_side_matches() {
    for (left, right) in [("ab", "cd"), ("a*", "b+"), ("(ab)+", "a|b"), ("[a-c]", "x")] {
        let whole = Regex::new(&format!("({})|({})", left, right)).unwrap();
        let first = Regex::new(left).unwrap();
        let second = Regex::new(right).unwrap();
        for text in sample_texts() {
            assert_eq!(
                whole.is_match(text),
                first.is_match(text) || second.is_match(text),
                "{} {} {}",
                left,
                right,
                text
            );
        }
    }
}

#[test]
fn union_of_trees_matches_what_either_tree_matches() {
    let tree = RegexAST::Binary(
        Box::new(parse_regex("a)b").unwrap()),
        BinaryOp::Union,
        Box::new(parse_regex("cd").unwrap()),
    );
    let whole = Automata::from_regex_expr(tree);
    assert!(whole.validate_str("a"));
    assert!(whole.validate_str("cd"));
    assert!(!whole.validate_str("ab"));
}

#[test]
fn star_matches_empty_text_and_plus_does_not() {
    for operand in ["a", "ab|cd", "[a-z]", "(ab)(cd)"] {
        assert!(Regex::new(&format!("({})*", operand)).unwrap().is_match(""));
        assert!(!Regex::new(&format!("({})+", operand)).unwrap().is_match(""));
    }
}

#[test]
fn subset_numbers_states_from_zero() {
    let mut automata = Automata::new(5);
    automata.add_transition(5, TransitionType::Symbol('a'), 6);
    automata.add_transition(6, TransitionType::Epsilon, 5);
    automata.add_final_state(6);
    let dfa = subset(automata);
    assert_eq!(dfa.start_state(), 0);
    assert_eq!(dfa.final_states(), &BTreeSet::from([1]));
    assert_eq!(
        dfa.edges(),
        vec![(0, TransitionType::Symbol('a'), 1), (1, TransitionType::Symbol('a'), 1)]
    );
}

#[test]
fn pattern_that_ends_in_a_union_cannot_stand_between_parentheses() {
    assert!(Regex::new("a|").unwrap().is_match(""));
    assert_eq!(
        Regex::new("(a|)|(b)").unwrap_err(),
        Error::Syntax("Unmatched parenthesis.".to_string())
    );
    assert_eq!(
        Regex::new("()|(b)").unwrap_err(),
        Error::Syntax("Unmatched parenthesis.".to_string())
    );
}

#[test]
fn pattern_that_is_not_read_to_its_end_changes_between_parentheses() {
    let whole = Regex::new("(a)b)|(c)").unwrap();
    assert!(whole.is_match("ab"));
    assert!(!Regex::new("a)b").unwrap().is_match("ab"));
    assert!(!Regex::new("c").unwrap().is_match("ab"));
    assert!(!whole.is_match("c"));
}

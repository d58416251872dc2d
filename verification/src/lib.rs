//! A regular-expression engine that compiles a pattern into a minimal
//! deterministic automaton and answers whole-string membership queries.
//!
//! A pattern is split into tokens and parsed into a syntax tree; the tree
//! becomes an automaton with epsilon edges, which is minimized by reversing
//! and determinizing it twice.

pub mod automata;
pub mod builder;
pub mod compose;
pub mod debug;
pub mod language;
pub mod laws;
pub mod lexer;
pub mod matching;
pub mod minimize;
pub mod order;
pub mod parser;
pub mod sets;
pub mod shape;

use crate::automata::{Automata, Dfa};
use crate::builder::{built, count_states, is_well_formed, state_count, well_formed};
use crate::matching::tree_matches;
use crate::minimize::{minimized, reached_throughout};
pub use crate::parser::Error;
use crate::parser::{parse_pattern, reports, supported, try_parse_regex, ParseFailure};
use vstd::prelude::*;
use vstd::string::StrSliceExecFns;

verus! {

/// A compiled pattern.
#[derive(Debug)]
pub struct Regex {
    pub automaton: Dfa,
}

/// Whether a pattern compiles or is rejected: its length and the number of
/// states of its automaton fit a machine word, the grammar has a place for
/// every token that parsing it reads, and both ends of every range in it are
/// single characters.
pub open spec fn compilable(pattern: Seq<char>) -> bool {
    &&& pattern.len() < usize::MAX
    &&& supported(pattern)
    &&& (parse_pattern(pattern) matches Ok(tree) ==> well_formed(tree) && state_count(tree)
        <= usize::MAX)
}

/// Whether `res` is what compiling `pattern` gives: the report of the
/// failure where the pattern has no syntax tree, otherwise the minimized
/// automaton of the tree, which accepts the texts that match the tree.
pub open spec fn compiled(pattern: Seq<char>, res: Result<Regex, Error>) -> bool {
    match parse_pattern(pattern) {
        Ok(tree) => res matches Ok(regex) && regex.automaton.wf() && minimized(
            built(tree, 0),
            regex.automaton@,
        ) && reached_throughout(regex.automaton@.as_nfa()) && (forall|text: Seq<char>| #[trigger]
            regex.automaton@.accepts(text) <==> tree_matches(tree, text)),
        Err(failure) => res matches Err(error) && reports(error, failure),
    }
}

impl Regex {
    /// Compiles a pattern.
    pub fn new(re: &str) -> (res: Result<Self, Error>)
        requires
            compilable(re@),
        ensures
            compiled(re@, res),
    {
        match try_parse_regex(re) {
            Ok(tree) => Ok(Self { automaton: Automata::from_regex_expr(tree) }),
            Err(failure) => Err(failure.report()),
        }
    }

    /// Compiles a pattern, or gives nothing where the pattern is not
    /// compilable.
    pub fn try_new(re: &str) -> (res: Option<Result<Self, Error>>)
        ensures
            res is Some <==> compilable(re@),
            res matches Some(found) ==> compiled(re@, found),
    {
        if re.unicode_len() == usize::MAX {
            return None;
        }
        match try_parse_regex(re) {
            Ok(tree) => {
                if !is_well_formed(&tree) {
                    return None;
                }
                if count_states(&tree).is_none() {
                    return None;
                }
                Some(Ok(Self { automaton: Automata::from_regex_expr(tree) }))
            },
            Err(ParseFailure::Unsupported(_)) => None,
            Err(failure) => Some(Err(failure.report())),
        }
    }

    /// Whether the whole of `text` matches the pattern.
    pub fn is_match(&self, text: &str) -> (matched: bool)
        ensures
            matched == self.automaton@.accepts(text@),
    {
        self.automaton.validate_str(text)
    }
}

} // verus!

//! What holds of every automaton and of every compiled pattern.

use crate::automata::{
    deterministic, lemma_char_code, lemma_edge_states, DfaModel, Edge, Nfa, State,
    TransitionType,
};
use crate::builder::{
    built, built_class, class_state_count, class_well_formed, state_count, well_formed,
};
use crate::compose::{
    closure_pattern, either_pattern, joinable, law_closure_pattern_tree, law_either_pattern_tree,
};
use crate::debug::{tabulates, Entry};
use crate::language::{accepts, lemma_reversed_accepts};
use crate::lexer::{
    implicit_concatenation, pattern_tokens, spec_token, token_stream, token_type, Token,
    TokenTypes,
};
use crate::matching::{at_least, class_holds, cut_at, repeats, tree_matches};
use crate::minimize::{
    determinized, is_move, lemma_determinized_shape, lemma_move_present, minimized,
    minimized_through, over, pruned,
    reached, reached_in, reached_states, reversed, subset_after, subset_reached, subset_step,
    top_state,
};
use crate::parser::{
    infix_power, lemma_parse_expr_progress, lemma_parse_operators_progress, parse_expr,
    parse_operators, parse_pattern, postfix_power, type_at, BinaryOp, CharacterClassBinaryOp,
    CharacterClassType, RegexAST, UnaryOp,
};
use crate::shape::{law_minimized_same_shape, law_minimized_unique, same_shape};
use crate::{compilable, compiled, Error, Regex};
use vstd::prelude::*;

verus! {

/// A deterministic automaton has no epsilon edge, and from a state a
/// character leads to at most one state.
pub proof fn law_single_destination(dfa: DfaModel)
    ensures
        deterministic(dfa.as_nfa()),
{
}

/// Reversing an automaton twice keeps the texts that it accepts.
pub proof fn law_reversed_twice(nfa: Nfa, text: Seq<char>)
    requires
        top_state(nfa) < usize::MAX,
        top_state(reversed(nfa)) < usize::MAX,
    ensures
        accepts(reversed(reversed(nfa)), text) <==> accepts(nfa, text),
{
    lemma_reversed_accepts(reversed(nfa), text);
    lemma_reversed_accepts(nfa, text.reverse());
    assert(text.reverse().reverse() =~= text);
}

/// After pruning, the states of the automaton are the states that the start
/// reaches, as long as every final state is reached and every edge that
/// leaves a reached state enters one, which every edge that reads a
/// character does.
pub proof fn law_pruned_states(nfa: Nfa)
    requires
        forall|state: State| #[trigger] nfa.finals.contains(state) ==> reached(nfa, state),
        forall|edge: Edge| #[trigger]
            nfa.edges.contains(edge) && reached(nfa, edge.0) ==> reached(nfa, edge.2),
    ensures
        pruned(nfa).states() == reached_states(nfa),
{
    let kept = pruned(nfa);
    assert(reached_in(nfa, nfa.start, 0));
    assert forall|state: State| kept.states().contains(state) <==> reached_states(nfa).contains(
        state,
    ) by {
        if kept.edge_ends().contains(state) {
            let edge = choose|edge: Edge| #[trigger]
                kept.edges.contains(edge) && (edge.0 == state || edge.2 == state);
            assert(nfa.edges.contains(edge));
        }
        if reached(nfa, state) && state != nfa.start {
            let steps = choose|steps: nat| reached_in(nfa, state, steps);
            let (mid, symbol) = choose|mid: State, symbol: char|
                reached_in(nfa, mid, (steps - 1) as nat) && nfa.edges.contains(
                    (mid, TransitionType::Symbol(symbol), state),
                );
            lemma_char_code(symbol);
            let edge = (mid, TransitionType::Symbol(symbol), state);
            assert(reached(nfa, mid));
            assert(kept.edges.contains(edge));
            lemma_edge_states(kept, edge);
        }
    }
    assert(kept.states() =~= reached_states(nfa));
}

/// An edge that reads a character leads from a reached state to a reached
/// state.
pub proof fn law_symbol_edges_stay_reached(nfa: Nfa, edge: Edge)
    requires
        nfa.edges.contains(edge),
        edge.1 is Symbol,
        reached(nfa, edge.0),
    ensures
        reached(nfa, edge.2),
{
    let steps = choose|steps: nat| reached_in(nfa, edge.0, steps);
    let symbol = edge.1->Symbol_0;
    assert(nfa.edges.contains((edge.0, TransitionType::Symbol(symbol), edge.2)));
    assert(reached_in(nfa, edge.2, steps + 1));
}

/// The characters of the leaves of a tree.
pub open spec fn symbols(tree: RegexAST) -> Set<char>
    decreases tree,
{
    match tree {
        RegexAST::Symbol(symbol) => set![symbol],
        RegexAST::EmptyString => Set::empty(),
        RegexAST::CharacterClass(class) => Set::new(|symbol: char| class_holds(class, symbol)),
        RegexAST::Binary(lhs, _, rhs) => symbols(*lhs).union(symbols(*rhs)),
        RegexAST::Unary(child, _) => symbols(*child),
    }
}

/// The fragment of a class has an edge for every character of the class,
/// and for no other.
pub proof fn law_built_class_alphabet(class: CharacterClassType, first: nat)
    requires
        class_well_formed(class),
    ensures
        built_class(class, first).alphabet() == Set::new(|symbol: char| class_holds(class, symbol)),
    decreases class,
{
    let nfa = built_class(class, first);
    let members = Set::new(|symbol: char| class_holds(class, symbol));
    match class {
        CharacterClassType::Single(member) => {
            assert forall|symbol: char| nfa.alphabet().contains(symbol) <==> members.contains(
                symbol,
            ) by {
                lemma_char_code(symbol);
                if symbol == member {
                    assert(nfa.edges.contains(
                        (first as State, TransitionType::Symbol(symbol), (first + 1) as State),
                    ));
                }
            }
        },
        CharacterClassType::Binary(lhs, CharacterClassBinaryOp::Union, rhs) => {
            let left = built_class(*lhs, first);
            let right = built_class(*rhs, first + class_state_count(*lhs));
            law_built_class_alphabet(*lhs, first);
            law_built_class_alphabet(*rhs, first + class_state_count(*lhs));
            assert forall|symbol: char| nfa.alphabet().contains(symbol) <==> members.contains(
                symbol,
            ) by {
                lemma_char_code(symbol);
                if nfa.alphabet().contains(symbol) {
                    let (from, to) = choose|from: State, to: State|
                        nfa.edges.contains((from, TransitionType::Symbol(symbol), to));
                    let edge = (from, TransitionType::Symbol(symbol), to);
                    if left.edges.contains(edge) {
                        assert(left.alphabet().contains(symbol));
                    } else {
                        assert(right.edges.contains(edge));
                        assert(right.alphabet().contains(symbol));
                    }
                }
                if left.alphabet().contains(symbol) {
                    let (from, to) = choose|from: State, to: State|
                        left.edges.contains((from, TransitionType::Symbol(symbol), to));
                    assert(nfa.edges.contains((from, TransitionType::Symbol(symbol), to)));
                }
                if right.alphabet().contains(symbol) {
                    let (from, to) = choose|from: State, to: State|
                        right.edges.contains((from, TransitionType::Symbol(symbol), to));
                    assert(nfa.edges.contains((from, TransitionType::Symbol(symbol), to)));
                }
            }
        },
        CharacterClassType::Binary(lhs, CharacterClassBinaryOp::Range, rhs) => {
            assert forall|symbol: char| nfa.alphabet().contains(symbol) <==> members.contains(
                symbol,
            ) by {
                lemma_char_code(symbol);
                if members.contains(symbol) {
                    assert(nfa.edges.contains(
                        (first as State, TransitionType::Symbol(symbol), (first + 1) as State),
                    ));
                }
            }
        },
    }
    assert(nfa.alphabet() =~= members);
}

/// The fragment of a tree has an edge for every character of a leaf of the
/// tree, and for no other.
pub proof fn law_built_alphabet(tree: RegexAST, first: nat)
    requires
        well_formed(tree),
    ensures
        built(tree, first).alphabet() == symbols(tree),
    decreases tree,
{
    let nfa = built(tree, first);
    match tree {
        RegexAST::Symbol(member) => {
            assert forall|symbol: char| nfa.alphabet().contains(symbol) <==> symbols(
                tree,
            ).contains(symbol) by {
                lemma_char_code(symbol);
                if symbol == member {
                    assert(nfa.edges.contains(
                        (first as State, TransitionType::Symbol(symbol), (first + 1) as State),
                    ));
                }
            }
        },
        RegexAST::EmptyString => {
            assert forall|symbol: char| !nfa.alphabet().contains(symbol) by {
                lemma_char_code(symbol);
            }
        },
        RegexAST::CharacterClass(class) => {
            law_built_class_alphabet(class, first);
        },
        RegexAST::Binary(lhs, op, rhs) => {
            let left = built(*lhs, first);
            let right = built(*rhs, first + state_count(*lhs));
            law_built_alphabet(*lhs, first);
            law_built_alphabet(*rhs, first + state_count(*lhs));
            assert forall|symbol: char| nfa.alphabet().contains(symbol) <==> symbols(
                tree,
            ).contains(symbol) by {
                lemma_char_code(symbol);
                if nfa.alphabet().contains(symbol) {
                    let (from, to) = choose|from: State, to: State|
                        nfa.edges.contains((from, TransitionType::Symbol(symbol), to));
                    let edge = (from, TransitionType::Symbol(symbol), to);
                    if left.edges.contains(edge) {
                        assert(left.alphabet().contains(symbol));
                    } else {
                        assert(right.edges.contains(edge));
                        assert(right.alphabet().contains(symbol));
                    }
                }
                if left.alphabet().contains(symbol) {
                    let (from, to) = choose|from: State, to: State|
                        left.edges.contains((from, TransitionType::Symbol(symbol), to));
                    assert(nfa.edges.contains((from, TransitionType::Symbol(symbol), to)));
                }
                if right.alphabet().contains(symbol) {
                    let (from, to) = choose|from: State, to: State|
                        right.edges.contains((from, TransitionType::Symbol(symbol), to));
                    assert(nfa.edges.contains((from, TransitionType::Symbol(symbol), to)));
                }
            }
        },
        RegexAST::Unary(child, op) => {
            let inner = built(*child, first);
            law_built_alphabet(*child, first);
            assert forall|symbol: char| nfa.alphabet().contains(symbol) <==> symbols(
                tree,
            ).contains(symbol) by {
                lemma_char_code(symbol);
                if nfa.alphabet().contains(symbol) {
                    let (from, to) = choose|from: State, to: State|
                        nfa.edges.contains((from, TransitionType::Symbol(symbol), to));
                    assert(inner.edges.contains((from, TransitionType::Symbol(symbol), to)));
                    assert(inner.alphabet().contains(symbol));
                }
                if inner.alphabet().contains(symbol) {
                    let (from, to) = choose|from: State, to: State|
                        inner.edges.contains((from, TransitionType::Symbol(symbol), to));
                    assert(nfa.edges.contains((from, TransitionType::Symbol(symbol), to)));
                }
            }
        },
    }
    assert(nfa.alphabet() =~= symbols(tree));
}

/// Reversing keeps the alphabet.
pub proof fn law_reversed_alphabet(nfa: Nfa)
    ensures
        reversed(nfa).alphabet() == nfa.alphabet(),
{
    let turned = reversed(nfa);
    assert forall|symbol: char| turned.alphabet().contains(symbol) <==> nfa.alphabet().contains(
        symbol,
    ) by {
        lemma_char_code(symbol);
        if turned.alphabet().contains(symbol) {
            let (from, to) = choose|from: State, to: State|
                turned.edges.contains((from, TransitionType::Symbol(symbol), to));
            assert(nfa.edges.contains((to, TransitionType::Symbol(symbol), from)));
        }
        if nfa.alphabet().contains(symbol) {
            let (from, to) = choose|from: State, to: State|
                nfa.edges.contains((from, TransitionType::Symbol(symbol), to));
            assert(turned.edges.contains((to, TransitionType::Symbol(symbol), from)));
        }
    }
    assert(turned.alphabet() =~= nfa.alphabet());
}

/// Determinizing keeps the alphabet.
pub proof fn law_determinized_alphabet(nfa: Nfa, dfa: Nfa, subsets: Seq<Set<State>>)
    requires
        determinized(nfa, dfa, subsets),
    ensures
        dfa.alphabet() == nfa.alphabet(),
{
    assert forall|symbol: char| dfa.alphabet().contains(symbol) <==> nfa.alphabet().contains(
        symbol,
    ) by {
        lemma_char_code(symbol);
        if dfa.alphabet().contains(symbol) {
            let (from, to) = choose|from: State, to: State|
                dfa.edges.contains((from, TransitionType::Symbol(symbol), to));
            assert(is_move(nfa, subsets, (from, TransitionType::Symbol(symbol), to)));
        }
        if nfa.alphabet().contains(symbol) {
            let nothing = Seq::<char>::empty();
            let text = seq![symbol];
            assert(text.drop_last() =~= nothing);
            assert(text.last() == symbol);
            assert(over(text, nfa.alphabet()));
            let target = subset_after(nfa, text);
            assert(target == subset_step(nfa, subsets[0], symbol));
            assert(subset_reached(nfa, target));
            assert(subsets.contains(target));
            let place = choose|place: int| 0 <= place < subsets.len() && subsets[place] == target;
            let edge = (0usize, TransitionType::Symbol(symbol), place as State);
            assert(is_move(nfa, subsets, edge));
            lemma_move_present(nfa, dfa, subsets, edge);
        }
    }
    assert(dfa.alphabet() =~= nfa.alphabet());
}

/// Minimizing keeps the alphabet.
pub proof fn law_minimized_alphabet(nfa: Nfa, dfa: DfaModel)
    requires
        minimized(nfa, dfa),
    ensures
        dfa.as_nfa().alphabet() == nfa.alphabet(),
{
    let (first, firsts, seconds) = choose|
        first: Nfa,
        firsts: Seq<Set<State>>,
        seconds: Seq<Set<State>>,
    | #[trigger] minimized_through(nfa, first, firsts, dfa.as_nfa(), seconds);
    lemma_determinized_shape(reversed(nfa), first, firsts);
    law_reversed_alphabet(nfa);
    law_determinized_alphabet(reversed(nfa), first, firsts);
    law_reversed_alphabet(first);
    law_determinized_alphabet(reversed(first), dfa.as_nfa(), seconds);
}

/// The alphabet of the minimized automaton of a tree is the set of the
/// characters of the leaves of the tree.
pub proof fn law_compiled_alphabet(tree: RegexAST, dfa: DfaModel)
    requires
        well_formed(tree),
        minimized(built(tree, 0), dfa),
    ensures
        dfa.as_nfa().alphabet() == symbols(tree),
{
    law_minimized_alphabet(built(tree, 0), dfa);
    law_built_alphabet(tree, 0);
}

/// Whether the tree matches the empty text.
pub open spec fn nullable(tree: RegexAST) -> bool
    decreases tree,
{
    match tree {
        RegexAST::Symbol(_) => false,
        RegexAST::EmptyString => true,
        RegexAST::CharacterClass(_) => false,
        RegexAST::Binary(lhs, BinaryOp::Union, rhs) => nullable(*lhs) || nullable(*rhs),
        RegexAST::Binary(lhs, BinaryOp::Concatenation, rhs) => nullable(*lhs) && nullable(*rhs),
        RegexAST::Unary(child, UnaryOp::ClosurePlus) => nullable(*child),
        RegexAST::Unary(child, UnaryOp::ClosureStar) => true,
    }
}

/// Some texts in a row are the empty text where there are none of them, or
/// where the tree matches the empty text.
pub proof fn lemma_repeats_nothing(tree: RegexAST, count: nat)
    ensures
        repeats(tree, Seq::empty(), count) <==> count == 0 || tree_matches(tree, Seq::empty()),
    decreases count,
{
    let nothing = Seq::<char>::empty();
    if count > 0 {
        lemma_repeats_nothing(tree, (count - 1) as nat);
        assert(nothing.take(0) =~= nothing);
        assert(nothing.skip(0) =~= nothing);
        if repeats(tree, nothing, count) {
            let cut = choose|cut: int|
                #[trigger] cut_at(nothing, cut) && repeats(
                    tree,
                    nothing.take(cut),
                    (count - 1) as nat,
                ) && tree_matches(tree, nothing.skip(cut));
            assert(cut == 0);
        }
        if tree_matches(tree, nothing) {
            assert(cut_at(nothing, 0) && repeats(tree, nothing.take(0), (count - 1) as nat)
                && tree_matches(tree, nothing.skip(0)));
        }
    }
}

/// A tree matches the empty text where its shape says so: an empty string
/// and a star always do, a symbol and a class never, a union where a side
/// does, a concatenation where both sides do, a plus where its operand does.
pub proof fn law_matches_nothing(tree: RegexAST)
    ensures
        tree_matches(tree, Seq::empty()) <==> nullable(tree),
    decreases tree,
{
    let nothing = Seq::<char>::empty();
    assert(nothing.take(0) =~= nothing);
    assert(nothing.skip(0) =~= nothing);
    match tree {
        RegexAST::Symbol(symbol) => {
            assert(seq![symbol].len() == 1);
        },
        RegexAST::EmptyString => {},
        RegexAST::CharacterClass(_) => {},
        RegexAST::Binary(lhs, BinaryOp::Union, rhs) => {
            law_matches_nothing(*lhs);
            law_matches_nothing(*rhs);
        },
        RegexAST::Binary(lhs, BinaryOp::Concatenation, rhs) => {
            law_matches_nothing(*lhs);
            law_matches_nothing(*rhs);
            if tree_matches(tree, nothing) {
                let cut = choose|cut: int|
                    #[trigger] cut_at(nothing, cut) && tree_matches(*lhs, nothing.take(cut))
                        && tree_matches(*rhs, nothing.skip(cut));
                assert(cut == 0);
            }
            if nullable(tree) {
                assert(cut_at(nothing, 0) && tree_matches(*lhs, nothing.take(0)) && tree_matches(
                    *rhs,
                    nothing.skip(0),
                ));
            }
        },
        RegexAST::Unary(child, UnaryOp::ClosurePlus) => {
            law_matches_nothing(*child);
            if tree_matches(tree, nothing) {
                let count = choose|count: nat|
                    #[trigger] at_least(count, 1) && repeats(*child, nothing, count);
                lemma_repeats_nothing(*child, count);
            }
            if nullable(tree) {
                lemma_repeats_nothing(*child, 1);
                assert(at_least(1, 1) && repeats(*child, nothing, 1));
            }
        },
        RegexAST::Unary(child, UnaryOp::ClosureStar) => {
            assert(at_least(0, 0) && repeats(*child, nothing, 0));
        },
    }
}

/// A union matches a text where one of its sides does.
pub proof fn law_union(lhs: RegexAST, rhs: RegexAST, text: Seq<char>)
    ensures
        tree_matches(RegexAST::Binary(Box::new(lhs), BinaryOp::Union, Box::new(rhs)), text)
            <==> tree_matches(lhs, text) || tree_matches(rhs, text),
{
}

/// The minimized automaton of a union accepts a text where the minimized
/// automaton of one of its sides does.
pub proof fn law_compiled_union(
    lhs: RegexAST,
    rhs: RegexAST,
    whole: DfaModel,
    left: DfaModel,
    right: DfaModel,
    text: Seq<char>,
)
    requires
        forall|any: Seq<char>| #[trigger]
            whole.accepts(any) <==> tree_matches(
                RegexAST::Binary(Box::new(lhs), BinaryOp::Union, Box::new(rhs)),
                any,
            ),
        forall|any: Seq<char>| #[trigger] left.accepts(any) <==> tree_matches(lhs, any),
        forall|any: Seq<char>| #[trigger] right.accepts(any) <==> tree_matches(rhs, any),
    ensures
        whole.accepts(text) <==> left.accepts(text) || right.accepts(text),
{
}

/// A star matches the empty text, and a plus matches it only where its
/// operand does.
pub proof fn law_closures_on_nothing(child: RegexAST)
    ensures
        tree_matches(RegexAST::Unary(Box::new(child), UnaryOp::ClosureStar), Seq::empty()),
        tree_matches(RegexAST::Unary(Box::new(child), UnaryOp::ClosurePlus), Seq::empty())
            <==> tree_matches(child, Seq::empty()),
{
    law_matches_nothing(RegexAST::Unary(Box::new(child), UnaryOp::ClosureStar));
    law_matches_nothing(RegexAST::Unary(Box::new(child), UnaryOp::ClosurePlus));
    law_matches_nothing(child);
}

/// Two compilations of one pattern give the same automaton, and so
/// automata that differ in nothing, not even in the numbers of their
/// states.
pub proof fn law_compiled_same_shape(pattern: Seq<char>, first: Regex, second: Regex)
    requires
        compiled(pattern, Ok(first)),
        compiled(pattern, Ok(second)),
    ensures
        first.automaton@ == second.automaton@,
        same_shape(first.automaton@.as_nfa(), second.automaton@.as_nfa()),
{
    let tree = parse_pattern(pattern)->Ok_0;
    law_minimized_unique(built(tree, 0), first.automaton@, second.automaton@);
    law_minimized_same_shape(built(tree, 0), first.automaton@, second.automaton@);
}

/// A compiled pattern matches the empty text where the shape of its tree
/// says so.
pub proof fn law_compiled_matches_nothing(pattern: Seq<char>, regex: Regex)
    requires
        compiled(pattern, Ok(regex)),
    ensures
        regex.automaton@.accepts(Seq::empty()) <==> nullable(parse_pattern(pattern)->Ok_0),
{
    law_matches_nothing(parse_pattern(pattern)->Ok_0);
}

/// The compilation of the pattern for either of two patterns matches a
/// text where the compilation of one of the two does, as long as each of the
/// two can stand between parentheses as it is.
pub proof fn law_compiled_either(
    left: Seq<char>,
    right: Seq<char>,
    compiled_either: Regex,
    compiled_left: Regex,
    compiled_right: Regex,
    text: Seq<char>,
)
    requires
        joinable(left),
        joinable(right),
        compiled(either_pattern(left, right), Ok(compiled_either)),
        compiled(left, Ok(compiled_left)),
        compiled(right, Ok(compiled_right)),
    ensures
        compiled_either.automaton@.accepts(text) <==> compiled_left.automaton@.accepts(text)
            || compiled_right.automaton@.accepts(text),
{
    law_either_pattern_tree(left, right);
}

/// The alphabet of a compiled pattern is the set of the characters of the
/// leaves of its tree.
pub proof fn law_compiled_pattern_alphabet(pattern: Seq<char>, regex: Regex)
    requires
        compilable(pattern),
        compiled(pattern, Ok(regex)),
    ensures
        regex.automaton@.as_nfa().alphabet() == symbols(parse_pattern(pattern)->Ok_0),
{
    law_compiled_alphabet(parse_pattern(pattern)->Ok_0, regex.automaton@);
}

/// The characters of the symbol tokens from `from` up to, not including,
/// `to`.
pub open spec fn token_symbols(tokens: Seq<Token>, from: int, to: int) -> Set<char> {
    Set::new(
        |symbol: char|
            exists|place: int|
                from <= place < to && 0 <= place < tokens.len() && (#[trigger] tokens[place]).ty
                    == TokenTypes::Symbol(symbol),
    )
}

/// Whether no token from `from` up to, not including, `to` opens a character
/// class.
pub open spec fn class_free(tokens: Seq<Token>, from: int, to: int) -> bool {
    forall|place: int|
        from <= place < to && 0 <= place < tokens.len() ==> !((#[trigger] tokens[place]).ty
            is OpenBracket)
}

/// The symbol tokens of two stretches that meet are those of the one and
/// those of the other.
pub proof fn lemma_token_symbols_split(tokens: Seq<Token>, from: int, mid: int, to: int)
    requires
        from <= mid <= to,
    ensures
        token_symbols(tokens, from, to) == token_symbols(tokens, from, mid).union(
            token_symbols(tokens, mid, to),
        ),
{
    assert(token_symbols(tokens, from, to) =~= token_symbols(tokens, from, mid).union(
        token_symbols(tokens, mid, to),
    ));
}

/// The symbol tokens of a stretch of one token.
pub proof fn lemma_token_symbols_one(tokens: Seq<Token>, place: int)
    requires
        0 <= place < tokens.len(),
    ensures
        token_symbols(tokens, place, place + 1) == (match tokens[place].ty {
            TokenTypes::Symbol(symbol) => set![symbol],
            _ => Set::<char>::empty(),
        }),
{
    let found = token_symbols(tokens, place, place + 1);
    match tokens[place].ty {
        TokenTypes::Symbol(symbol) => {
            assert forall|other: char| found.contains(other) <==> set![symbol].contains(other) by {
                if other == symbol {
                    assert(tokens[place].ty == TokenTypes::Symbol(other));
                }
            }
            assert(found =~= set![symbol]);
        },
        _ => {
            assert(found =~= Set::<char>::empty());
        },
    }
}

/// Outside character classes, the operators that follow an expression add
/// to its leaves the symbols among the tokens that they read.
pub proof fn lemma_parse_operators_symbols(
    tokens: Seq<Token>,
    lhs: RegexAST,
    index: int,
    min_bp: int,
)
    requires
        0 <= index <= tokens.len(),
        parse_operators(tokens, lhs, index, min_bp).result is Ok,
        class_free(tokens, index, parse_operators(tokens, lhs, index, min_bp).index),
    ensures
        symbols(parse_operators(tokens, lhs, index, min_bp).result->Ok_0) == symbols(lhs).union(
            token_symbols(tokens, index, parse_operators(tokens, lhs, index, min_bp).index),
        ),
    decreases tokens.len() - index, 0int,
{
    let parsed = parse_operators(tokens, lhs, index, min_bp);
    let goal = symbols(lhs).union(token_symbols(tokens, index, parsed.index));
    lemma_parse_operators_progress(tokens, lhs, index, min_bp);
    assert(token_symbols(tokens, index, index) =~= Set::<char>::empty());
    if index < tokens.len() {
        let ty = tokens[index].ty;
        lemma_token_symbols_one(tokens, index);
        if ty is ClosureStar || ty is ClosurePlus {
            if postfix_power(ty)->0 >= min_bp && !(type_at(tokens, index + 1) is ClosureStar) {
                let op = if ty is ClosureStar {
                    UnaryOp::ClosureStar
                } else {
                    UnaryOp::ClosurePlus
                };
                let next = RegexAST::Unary(Box::new(lhs), op);
                assert(parsed == parse_operators(tokens, next, index + 1, min_bp));
                lemma_parse_operators_progress(tokens, next, index + 1, min_bp);
                lemma_parse_operators_symbols(tokens, next, index + 1, min_bp);
                lemma_token_symbols_split(tokens, index, index + 1, parsed.index);
                assert(symbols(parsed.result->Ok_0) =~= goal);
            } else {
                assert(symbols(parsed.result->Ok_0) =~= goal);
            }
        } else if ty is Union || ty is Concatenation {
            let (left, right) = infix_power(ty, false)->0;
            if left >= min_bp {
                if ty is Union && index + 1 < tokens.len() && tokens[index + 1].ty is Eof {
                    let next = RegexAST::Binary(
                        Box::new(lhs),
                        BinaryOp::Union,
                        Box::new(RegexAST::EmptyString),
                    );
                    assert(parsed == parse_operators(tokens, next, index + 1, min_bp));
                    lemma_parse_operators_progress(tokens, next, index + 1, min_bp);
                    lemma_parse_operators_symbols(tokens, next, index + 1, min_bp);
                    lemma_token_symbols_split(tokens, index, index + 1, parsed.index);
                    assert(symbols(RegexAST::EmptyString) =~= Set::<char>::empty());
                    assert(symbols(next) =~= symbols(lhs));
                    assert(symbols(parsed.result->Ok_0) =~= goal);
                } else {
                    let rhs = parse_expr(tokens, index + 1, right);
                    if index + 1 < tokens.len() {
                        lemma_parse_expr_progress(tokens, index + 1, right);
                    }
                    let op = if ty is Union {
                        BinaryOp::Union
                    } else {
                        BinaryOp::Concatenation
                    };
                    let next = RegexAST::Binary(Box::new(lhs), op, Box::new(rhs.result->Ok_0));
                    assert(rhs.result is Ok);
                    assert(parsed == parse_operators(tokens, next, rhs.index, min_bp));
                    lemma_parse_operators_progress(tokens, next, rhs.index, min_bp);
                    lemma_parse_expr_symbols(tokens, index + 1, right);
                    lemma_parse_operators_symbols(tokens, next, rhs.index, min_bp);
                    lemma_token_symbols_split(tokens, index, index + 1, parsed.index);
                    lemma_token_symbols_split(tokens, index + 1, rhs.index, parsed.index);
                    assert(symbols(parsed.result->Ok_0) =~= goal);
                }
            } else {
                assert(symbols(parsed.result->Ok_0) =~= goal);
            }
        } else {
            assert(symbols(parsed.result->Ok_0) =~= goal);
        }
    } else {
        assert(symbols(parsed.result->Ok_0) =~= goal);
    }
}

/// Outside character classes, the leaves of a parsed expression are the
/// symbols among the tokens that parsing it reads.
pub proof fn lemma_parse_expr_symbols(tokens: Seq<Token>, index: int, min_bp: int)
    requires
        0 <= index,
        parse_expr(tokens, index, min_bp).result is Ok,
        class_free(tokens, index, parse_expr(tokens, index, min_bp).index),
    ensures
        symbols(parse_expr(tokens, index, min_bp).result->Ok_0) == token_symbols(
            tokens,
            index,
            parse_expr(tokens, index, min_bp).index,
        ),
    decreases tokens.len() - index, 1int,
{
    let parsed = parse_expr(tokens, index, min_bp);
    if index < tokens.len() {
        lemma_parse_expr_progress(tokens, index, min_bp);
        lemma_token_symbols_one(tokens, index);
        match tokens[index].ty {
            TokenTypes::Symbol(symbol) => {
                lemma_parse_operators_symbols(tokens, RegexAST::Symbol(symbol), index + 1, min_bp);
                lemma_token_symbols_split(tokens, index, index + 1, parsed.index);
            },
            TokenTypes::OpenParenthesis => {
                let inner = parse_expr(tokens, index + 1, 0);
                lemma_parse_expr_progress(tokens, index + 1, 0);
                lemma_parse_operators_progress(tokens, inner.result->Ok_0, inner.index + 1, min_bp);
                lemma_parse_expr_symbols(tokens, index + 1, 0);
                lemma_parse_operators_symbols(tokens, inner.result->Ok_0, inner.index + 1, min_bp);
                lemma_token_symbols_one(tokens, inner.index);
                lemma_token_symbols_split(tokens, index, index + 1, parsed.index);
                lemma_token_symbols_split(tokens, index + 1, inner.index, parsed.index);
                lemma_token_symbols_split(tokens, inner.index, inner.index + 1, parsed.index);
            },
            TokenTypes::OpenBracket => {
                lemma_parse_expr_progress(tokens, index, min_bp);
            },
            _ => {},
        }
    }
    assert(symbols(parsed.result->Ok_0) =~= token_symbols(tokens, index, parsed.index));
}

/// The characters of the pattern that stand for themselves outside a
/// character class.
pub open spec fn literals(pattern: Seq<char>) -> Set<char> {
    Set::new(
        |symbol: char|
            exists|place: int|
                0 <= place < pattern.len() && #[trigger] pattern[place] == symbol && token_type(
                    symbol,
                ) is Symbol,
    )
}

/// Whether no character of the pattern opens a character class.
pub open spec fn bracket_free(pattern: Seq<char>) -> bool {
    forall|place: int| 0 <= place < pattern.len() ==> #[trigger] pattern[place] != '['
}

/// The tokens of a pattern from `index` on are symbols for the characters
/// that stand for themselves, and none opens a class.
pub proof fn lemma_pattern_tokens_symbols(pattern: Seq<char>, index: int)
    requires
        0 <= index,
        bracket_free(pattern),
        pattern.len() < usize::MAX,
    ensures
        forall|place: int|
            0 <= place < pattern_tokens(pattern, index).len() ==> !((#[trigger] pattern_tokens(
                pattern,
                index,
            )[place]).ty is OpenBracket),
        forall|symbol: char|
            token_symbols(
                pattern_tokens(pattern, index),
                0,
                pattern_tokens(pattern, index).len() as int,
            ).contains(symbol) <==> exists|place: int|
                index <= place < pattern.len() && #[trigger] pattern[place] == symbol
                    && token_type(symbol) is Symbol,
    decreases pattern.len() - index,
{
    let tokens = pattern_tokens(pattern, index);
    if index < pattern.len() {
        lemma_pattern_tokens_symbols(pattern, index + 1);
        let rest = pattern_tokens(pattern, index + 1);
        let ty = token_type(pattern[index]);
        let head = seq![spec_token(ty, index, index + 1)] + implicit_concatenation(
            pattern,
            index,
            ty,
        );
        assert(tokens == head + rest);
        assert forall|place: int| 0 <= place < tokens.len() implies !((#[trigger] tokens[place]).ty
            is OpenBracket) by {
            if place >= head.len() {
                assert(tokens[place] == rest[place - head.len()]);
            }
        }
        assert forall|symbol: char|
            token_symbols(tokens, 0, tokens.len() as int).contains(symbol) <==> exists|place: int|
                index <= place < pattern.len() && #[trigger] pattern[place] == symbol
                    && token_type(symbol) is Symbol by {
            lemma_char_code(symbol);
            if token_symbols(tokens, 0, tokens.len() as int).contains(symbol) {
                let at = choose|at: int|
                    0 <= at < tokens.len() && (#[trigger] tokens[at]).ty == TokenTypes::Symbol(
                        symbol,
                    );
                if at >= head.len() {
                    assert(tokens[at] == rest[at - head.len()]);
                    assert(token_symbols(rest, 0, rest.len() as int).contains(symbol));
                    let place = choose|place: int|
                        index + 1 <= place < pattern.len() && #[trigger] pattern[place] == symbol
                            && token_type(symbol) is Symbol;
                } else {
                    assert(at == 0);
                    assert(pattern[index] == symbol);
                }
            }
            if exists|place: int|
                index <= place < pattern.len() && #[trigger] pattern[place] == symbol
                    && token_type(symbol) is Symbol {
                let place = choose|place: int|
                    index <= place < pattern.len() && #[trigger] pattern[place] == symbol
                        && token_type(symbol) is Symbol;
                if place == index {
                    assert(tokens[0].ty == TokenTypes::Symbol(symbol));
                } else {
                    assert(token_symbols(rest, 0, rest.len() as int).contains(symbol));
                    let at = choose|at: int|
                        0 <= at < rest.len() && (#[trigger] rest[at]).ty == TokenTypes::Symbol(
                            symbol,
                        );
                    assert(tokens[at + head.len()] == rest[at]);
                }
            }
        }
    }
}

/// Whether parsing the pattern reads it to its end.
pub open spec fn read_whole(pattern: Seq<char>) -> bool {
    parse_expr(token_stream(pattern), 0, 0).index >= token_stream(pattern).len() - 1
}

/// The leaves of the tree of a pattern without character classes, read to
/// its end, are the characters of the pattern that stand for themselves.
pub proof fn law_parsed_symbols(pattern: Seq<char>)
    requires
        pattern.len() < usize::MAX,
        bracket_free(pattern),
        parse_pattern(pattern) is Ok,
        read_whole(pattern),
    ensures
        symbols(parse_pattern(pattern)->Ok_0) == literals(pattern),
{
    let tokens = token_stream(pattern);
    let body = pattern_tokens(pattern, 0);
    let parsed = parse_expr(tokens, 0, 0);
    lemma_pattern_tokens_symbols(pattern, 0);
    lemma_parse_expr_progress(tokens, 0, 0);
    assert forall|place: int| 0 <= place < tokens.len() implies !((#[trigger] tokens[place]).ty
        is OpenBracket) by {
        if place < body.len() {
            assert(tokens[place] == body[place]);
        }
    }
    lemma_parse_expr_symbols(tokens, 0, 0);
    assert forall|symbol: char| symbols(parsed.result->Ok_0).contains(symbol) <==> literals(
        pattern,
    ).contains(symbol) by {
        lemma_char_code(symbol);
        if token_symbols(tokens, 0, parsed.index).contains(symbol) {
            let at = choose|at: int|
                0 <= at < parsed.index && 0 <= at < tokens.len() && (#[trigger] tokens[at]).ty
                    == TokenTypes::Symbol(symbol);
            assert(tokens[at] == body[at]);
            assert(token_symbols(body, 0, body.len() as int).contains(symbol));
        }
        if literals(pattern).contains(symbol) {
            let place = choose|place: int|
                0 <= place < pattern.len() && #[trigger] pattern[place] == symbol && token_type(
                    symbol,
                ) is Symbol;
            assert(token_symbols(body, 0, body.len() as int).contains(symbol));
            let at = choose|at: int|
                0 <= at < body.len() && (#[trigger] body[at]).ty == TokenTypes::Symbol(symbol);
            assert(tokens[at] == body[at]);
        }
    }
    assert(symbols(parsed.result->Ok_0) =~= literals(pattern));
}

/// The alphabet of the compilation of a pattern without character classes,
/// read to its end, is the set of the characters of the pattern that stand
/// for themselves.
pub proof fn law_alphabet_of_literals(pattern: Seq<char>, regex: Regex)
    requires
        compilable(pattern),
        compiled(pattern, Ok(regex)),
        bracket_free(pattern),
        read_whole(pattern),
    ensures
        regex.automaton@.as_nfa().alphabet() == literals(pattern),
{
    law_compiled_pattern_alphabet(pattern, regex);
    law_parsed_symbols(pattern);
}

/// Whether `text` is `count` texts in a row that the automaton each
/// accepts.
pub open spec fn accepted_in_row(dfa: DfaModel, text: Seq<char>, count: nat) -> bool
    decreases count,
{
    if count == 0 {
        text.len() == 0
    } else {
        exists|cut: int|
            #[trigger] cut_at(text, cut) && accepted_in_row(
                dfa,
                text.take(cut),
                (count - 1) as nat,
            ) && dfa.accepts(text.skip(cut))
    }
}

/// Texts in a row that each match a tree are texts in a row that an
/// automaton each accepts, where the automaton accepts what matches the
/// tree.
pub proof fn lemma_accepted_in_row(tree: RegexAST, dfa: DfaModel, text: Seq<char>, count: nat)
    requires
        forall|any: Seq<char>| #[trigger] dfa.accepts(any) <==> tree_matches(tree, any),
    ensures
        repeats(tree, text, count) <==> accepted_in_row(dfa, text, count),
    decreases count,
{
    if count > 0 {
        if repeats(tree, text, count) {
            let cut = choose|cut: int|
                #[trigger] cut_at(text, cut) && repeats(tree, text.take(cut), (count - 1) as nat)
                    && tree_matches(tree, text.skip(cut));
            lemma_accepted_in_row(tree, dfa, text.take(cut), (count - 1) as nat);
            assert(dfa.accepts(text.skip(cut)));
            assert(cut_at(text, cut) && accepted_in_row(dfa, text.take(cut), (count - 1) as nat)
                && dfa.accepts(text.skip(cut)));
        }
        if accepted_in_row(dfa, text, count) {
            let cut = choose|cut: int|
                #[trigger] cut_at(text, cut) && accepted_in_row(
                    dfa,
                    text.take(cut),
                    (count - 1) as nat,
                ) && dfa.accepts(text.skip(cut));
            lemma_accepted_in_row(tree, dfa, text.take(cut), (count - 1) as nat);
            assert(tree_matches(tree, text.skip(cut)));
            assert(cut_at(text, cut) && repeats(tree, text.take(cut), (count - 1) as nat)
                && tree_matches(tree, text.skip(cut)));
        }
    }
}

/// The least number of texts in a row under a closure operator.
pub open spec fn least_count(op: UnaryOp) -> nat {
    match op {
        UnaryOp::ClosurePlus => 1,
        UnaryOp::ClosureStar => 0,
    }
}

/// The compilation of a pattern in parentheses under a closure operator
/// matches the texts that are some texts in a row which the tree of the
/// pattern each matches: one or more under the plus, none or more under the
/// star. So it matches the empty text under the star, and under the plus
/// only where the compilation of the pattern itself does.
pub proof fn law_compiled_closure(
    pattern: Seq<char>,
    op: UnaryOp,
    compiled_closure: Regex,
    compiled_pattern: Regex,
    text: Seq<char>,
)
    requires
        joinable(pattern),
        compiled(closure_pattern(pattern, op), Ok(compiled_closure)),
        compiled(pattern, Ok(compiled_pattern)),
    ensures
        compiled_closure.automaton@.accepts(text) <==> exists|count: nat|
            #[trigger] at_least(count, least_count(op)) && accepted_in_row(
                compiled_pattern.automaton@,
                text,
                count,
            ),
        op is ClosureStar ==> compiled_closure.automaton@.accepts(Seq::empty()),
        op is ClosurePlus ==> (compiled_closure.automaton@.accepts(Seq::empty())
            <==> compiled_pattern.automaton@.accepts(Seq::empty())),
{
    law_closure_pattern_tree(pattern, op);
    law_closures_on_nothing(parse_pattern(pattern)->Ok_0);
    let tree = parse_pattern(pattern)->Ok_0;
    let dfa = compiled_pattern.automaton@;
    let whole = RegexAST::Unary(Box::new(tree), op);
    if tree_matches(whole, text) {
        match op {
            UnaryOp::ClosurePlus => {
                let count = choose|count: nat|
                    #[trigger] at_least(count, 1) && repeats(tree, text, count);
                lemma_accepted_in_row(tree, dfa, text, count);
                assert(at_least(count, least_count(op)) && accepted_in_row(dfa, text, count));
            },
            UnaryOp::ClosureStar => {
                let count = choose|count: nat|
                    #[trigger] at_least(count, 0) && repeats(tree, text, count);
                lemma_accepted_in_row(tree, dfa, text, count);
                assert(at_least(count, least_count(op)) && accepted_in_row(dfa, text, count));
            },
        }
    }
    if exists|count: nat|
        #[trigger] at_least(count, least_count(op)) && accepted_in_row(dfa, text, count) {
        let count = choose|count: nat|
            #[trigger] at_least(count, least_count(op)) && accepted_in_row(dfa, text, count);
        lemma_accepted_in_row(tree, dfa, text, count);
        match op {
            UnaryOp::ClosurePlus => {
                assert(at_least(count, 1) && repeats(tree, text, count));
            },
            UnaryOp::ClosureStar => {
                assert(at_least(count, 0) && repeats(tree, text, count));
            },
        }
    }
}

/// A compiled pattern matches the empty text where its start state is
/// final.
pub proof fn law_matches_nothing_at_start(dfa: DfaModel)
    ensures
        dfa.accepts(Seq::empty()) <==> dfa.finals.contains(dfa.start),
{
}

/// Two compilations of one pattern that has no tree give errors of the same
/// kind with the same text.
pub proof fn law_compile_errors_agree(pattern: Seq<char>, first: Error, second: Error)
    requires
        compiled(pattern, Err(first)),
        compiled(pattern, Err(second)),
    ensures
        first is Syntax <==> second is Syntax,
        match (first, second) {
            (Error::Syntax(a), Error::Syntax(b)) => a@ == b@,
            (Error::InvalidRange(a), Error::InvalidRange(b)) => a@ == b@,
            _ => false,
        },
{
}

/// The transition table of a deterministic automaton has one state in
/// every entry, and no entry under epsilon.
pub proof fn law_table_single_destination(dfa: DfaModel, table: Seq<Entry>, place: int)
    requires
        tabulates(dfa.as_nfa().edges, table),
        0 <= place < table.len(),
    ensures
        table[place].0.1 matches TransitionType::Symbol(symbol) && table[place].1@ == set![
            dfa.step(table[place].0.0, symbol)->0,
        ],
{
    let from = table[place].0.0;
    let label = table[place].0.1;
    let to = choose|to: State| dfa.as_nfa().edges.contains((from, label, to));
    let symbol = label->Symbol_0;
    assert(table[place].1@ =~= set![dfa.step(from, symbol)->0]);
}

} // verus!

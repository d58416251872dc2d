//! From a syntax tree to an automaton with epsilon edges.
//!
//! Every node of the tree becomes a fragment with one start state. The
//! states of a fragment are numbered from a counter that only grows, so the
//! fragments of two subtrees share no state.

use crate::automata::{
    lemma_char_code, symbol_of, Automata, Edge, Nfa, State, TransitionType,
};
use crate::parser::{BinaryOp, CharacterClassBinaryOp, CharacterClassType, RegexAST, UnaryOp};
use crate::sets::set_items;
use std::collections::BTreeSet;
use vstd::prelude::*;

verus! {

/// Whether both ends of every range of the class are single characters.
pub open spec fn class_well_formed(class: CharacterClassType) -> bool
    decreases class,
{
    match class {
        CharacterClassType::Single(_) => true,
        CharacterClassType::Binary(lhs, CharacterClassBinaryOp::Union, rhs) => class_well_formed(
            *lhs,
        ) && class_well_formed(*rhs),
        CharacterClassType::Binary(lhs, CharacterClassBinaryOp::Range, rhs) => *lhs is Single
            && *rhs is Single,
    }
}

/// Whether both ends of every range in the tree are single characters.
pub open spec fn well_formed(tree: RegexAST) -> bool
    decreases tree,
{
    match tree {
        RegexAST::Binary(lhs, _, rhs) => well_formed(*lhs) && well_formed(*rhs),
        RegexAST::Unary(child, _) => well_formed(*child),
        RegexAST::CharacterClass(class) => class_well_formed(class),
        _ => true,
    }
}

/// The number of states that the fragment of a class takes.
pub open spec fn class_state_count(class: CharacterClassType) -> nat
    decreases class,
{
    match class {
        CharacterClassType::Binary(lhs, CharacterClassBinaryOp::Union, rhs) => class_state_count(
            *lhs,
        ) + class_state_count(*rhs) + 1,
        _ => 2,
    }
}

/// The number of states that the fragment of a tree takes.
pub open spec fn state_count(tree: RegexAST) -> nat
    decreases tree,
{
    match tree {
        RegexAST::Binary(lhs, BinaryOp::Union, rhs) => state_count(*lhs) + state_count(*rhs) + 1,
        RegexAST::Binary(lhs, BinaryOp::Concatenation, rhs) => state_count(*lhs) + state_count(
            *rhs,
        ),
        RegexAST::Unary(child, _) => state_count(*child) + 1,
        RegexAST::CharacterClass(class) => class_state_count(class),
        _ => 2,
    }
}

/// Two states joined by one edge; the second is final.
pub open spec fn leaf(label: TransitionType, first: nat) -> Nfa {
    Nfa {
        start: first as State,
        finals: set![(first + 1) as State],
        edges: set![(first as State, label, (first + 1) as State)],
    }
}

/// Two states joined by one edge for every character from `low` to `high`;
/// the second is final.
pub open spec fn span(low: char, high: char, first: nat) -> Nfa {
    Nfa {
        start: first as State,
        finals: set![(first + 1) as State],
        edges: Set::new(
            |edge: Edge|
                edge.0 == first as State && edge.2 == (first + 1) as State && (
                edge.1 matches TransitionType::Symbol(symbol) && low as u32 <= symbol as u32
                    <= high as u32),
        ),
    }
}

/// The edges from `start` to `end` under the characters from `low` up to,
/// not including, the code point `bound`.
pub open spec fn span_below(low: char, bound: int, start: State, end: State) -> Set<Edge> {
    Set::new(
        |edge: Edge|
            edge.0 == start && edge.2 == end && (edge.1 matches TransitionType::Symbol(symbol)
                && low as u32 <= symbol as u32 && (symbol as u32) < bound),
    )
}

/// Either fragment: a new start state with an epsilon edge to the start of
/// each.
pub open spec fn fork(lhs: Nfa, rhs: Nfa, start: nat) -> Nfa {
    Nfa {
        start: start as State,
        finals: lhs.finals.union(rhs.finals),
        edges: lhs.edges.union(rhs.edges).insert(
            (start as State, TransitionType::Epsilon, lhs.start),
        ).insert((start as State, TransitionType::Epsilon, rhs.start)),
    }
}

/// The epsilon edges from every state of `from` to `to`.
pub open spec fn links(from: Set<State>, to: State) -> Set<Edge> {
    Set::new(
        |edge: Edge| from.contains(edge.0) && edge.1 == TransitionType::Epsilon && edge.2 == to,
    )
}

/// One fragment after the other: every final state of the first has an
/// epsilon edge to the start of the second.
pub open spec fn chain(lhs: Nfa, rhs: Nfa) -> Nfa {
    Nfa {
        start: lhs.start,
        finals: rhs.finals,
        edges: lhs.edges.union(rhs.edges).union(links(lhs.finals, rhs.start)),
    }
}

/// The fragment once or more: every final state has an epsilon edge back to
/// the old start, which the new start leads to. Under the star the new start
/// is final too.
pub open spec fn repeat(child: Nfa, op: UnaryOp, start: nat) -> Nfa {
    Nfa {
        start: start as State,
        finals: if op is ClosureStar {
            child.finals.insert(start as State)
        } else {
            child.finals
        },
        edges: child.edges.union(links(child.finals, child.start)).insert(
            (start as State, TransitionType::Epsilon, child.start),
        ),
    }
}

/// The fragment of a character class, its states numbered from `first`.
pub open spec fn built_class(class: CharacterClassType, first: nat) -> Nfa
    decreases class,
{
    match class {
        CharacterClassType::Single(symbol) => leaf(TransitionType::Symbol(symbol), first),
        CharacterClassType::Binary(lhs, CharacterClassBinaryOp::Union, rhs) => fork(
            built_class(*lhs, first),
            built_class(*rhs, first + class_state_count(*lhs)),
            first + class_state_count(*lhs) + class_state_count(*rhs),
        ),
        CharacterClassType::Binary(lhs, CharacterClassBinaryOp::Range, rhs) => match (*lhs, *rhs) {
            (CharacterClassType::Single(low), CharacterClassType::Single(high)) => span(
                low,
                high,
                first,
            ),
            _ => Nfa::empty(first as State),
        },
    }
}

/// The fragment of a syntax tree, its states numbered from `first`.
pub open spec fn built(tree: RegexAST, first: nat) -> Nfa
    decreases tree,
{
    match tree {
        RegexAST::Symbol(symbol) => leaf(TransitionType::Symbol(symbol), first),
        RegexAST::EmptyString => leaf(TransitionType::Epsilon, first),
        RegexAST::CharacterClass(class) => built_class(class, first),
        RegexAST::Binary(lhs, BinaryOp::Union, rhs) => fork(
            built(*lhs, first),
            built(*rhs, first + state_count(*lhs)),
            first + state_count(*lhs) + state_count(*rhs),
        ),
        RegexAST::Binary(lhs, BinaryOp::Concatenation, rhs) => chain(
            built(*lhs, first),
            built(*rhs, first + state_count(*lhs)),
        ),
        RegexAST::Unary(child, op) => repeat(built(*child, first), op, first + state_count(*child)),
    }
}

/// Whether the start state, the final states and both ends of every edge lie
/// from `low` up to, not including, `high`.
pub open spec fn within(nfa: Nfa, low: nat, high: nat) -> bool {
    &&& low <= nfa.start < high
    &&& (forall|state: State| #[trigger] nfa.finals.contains(state) ==> low <= state < high)
    &&& (forall|edge: Edge| #[trigger]
        nfa.edges.contains(edge) ==> low <= edge.0 < high && low <= edge.2 < high)
}

/// The fragment of a class uses exactly the numbers it takes from the
/// counter.
pub proof fn lemma_built_class_within(class: CharacterClassType, first: nat)
    requires
        first + class_state_count(class) <= usize::MAX,
        class_well_formed(class),
    ensures
        within(built_class(class, first), first, first + class_state_count(class)),
    decreases class,
{
    match class {
        CharacterClassType::Binary(lhs, CharacterClassBinaryOp::Union, rhs) => {
            lemma_built_class_within(*lhs, first);
            lemma_built_class_within(*rhs, first + class_state_count(*lhs));
        },
        _ => {},
    }
}

/// The fragment of a tree uses exactly the numbers it takes from the
/// counter: none below the counter's value before, none from its value
/// after.
pub proof fn lemma_built_within(tree: RegexAST, first: nat)
    requires
        first + state_count(tree) <= usize::MAX,
        well_formed(tree),
    ensures
        within(built(tree, first), first, first + state_count(tree)),
    decreases tree,
{
    match tree {
        RegexAST::CharacterClass(class) => {
            lemma_built_class_within(class, first);
        },
        RegexAST::Binary(lhs, _, rhs) => {
            lemma_built_within(*lhs, first);
            lemma_built_within(*rhs, first + state_count(*lhs));
        },
        RegexAST::Unary(child, _) => {
            lemma_built_within(*child, first);
        },
        _ => {},
    }
}

/// Adds an epsilon edge from every state of `from` to `to`.
fn link_states(automata: &mut Automata, from: &BTreeSet<State>, to: State)
    requires
        old(automata).wf(),
    ensures
        final(automata).wf(),
        final(automata)@ == (Nfa {
            edges: old(automata)@.edges.union(links(from@, to)),
            ..old(automata)@
        }),
{
    let items = set_items(from);
    let ghost before = automata@;
    let mut i: usize = 0;
    while i < items.len()
        invariant
            i <= items.len(),
            automata.wf(),
            automata@ == (Nfa {
                edges: before.edges.union(links(items@.take(i as int).to_set(), to)),
                ..before
            }),
        decreases items.len() - i,
    {
        proof {
            items@.lemma_take_succ_push(i as int);
            items@.take(i as int).lemma_push_to_set_commute(items@[i as int]);
        }
        automata.add_transition(items[i], TransitionType::Epsilon, to);
        assert(automata@.edges =~= before.edges.union(
            links(items@.take(i + 1).to_set(), to),
        ));
        i += 1;
    }
    assert(items@.take(items@.len() as int) == items@);
}

fn create_automata_for_transtition_type(transition: TransitionType, state: &mut State) -> (automata:
    Automata)
    requires
        *old(state) + 2 <= usize::MAX,
    ensures
        automata.wf(),
        automata@ == leaf(transition, *old(state) as nat),
        *final(state) == *old(state) + 2,
{
    let mut automata = Automata::new(*state);
    automata.add_transition(*state, transition, *state + 1);
    automata.add_final_state(*state + 1);

    *state += 2;

    assert(automata@ =~= leaf(transition, *old(state) as nat));
    automata
}

fn parse_character_class(char_class_type: CharacterClassType, state: &mut usize) -> (automata:
    Automata)
    requires
        class_well_formed(char_class_type),
        *old(state) + class_state_count(char_class_type) <= usize::MAX,
    ensures
        automata.wf(),
        automata@ == built_class(char_class_type, *old(state) as nat),
        *final(state) == *old(state) + class_state_count(char_class_type),
    decreases char_class_type,
{
    match char_class_type {
        CharacterClassType::Single(symbol) => {
            create_automata_for_transtition_type(TransitionType::Symbol(symbol), state)
        },
        CharacterClassType::Binary(lhs, CharacterClassBinaryOp::Union, rhs) => {
            let lhs = parse_character_class(*lhs, state);
            let rhs = parse_character_class(*rhs, state);

            let mut automata = Automata::new(*state);
            automata.add_transition(*state, TransitionType::Epsilon, lhs.start_state());
            automata.add_transition(*state, TransitionType::Epsilon, rhs.start_state());
            let ghost fragment = fork(lhs@, rhs@, *state as nat);

            automata.merge_automata(lhs);
            automata.merge_automata(rhs);

            *state += 1;

            assert(automata@ =~= fragment);
            automata
        },
        CharacterClassType::Binary(lhs, CharacterClassBinaryOp::Range, rhs) => {
            let low = match *lhs {
                CharacterClassType::Single(low) => low,
                _ => ' ',
            };
            let high = match *rhs {
                CharacterClassType::Single(high) => high,
                _ => ' ',
            };

            let mut automata = Automata::new(*state);
            let start = *state;
            *state += 1;
            let final_state = *state;
            *state += 1;
            automata.add_final_state(final_state);
            let high_code = high as u32;
            let mut code = low as u32;
            while code <= high_code
                invariant
                    automata.wf(),
                    high_code == high as u32,
                    low as u32 <= code,
                    code == low as u32 || code <= high_code + 1,
                    high_code <= 0x10FFFF,
                    automata@.start == start,
                    automata@.finals == set![final_state],
                    automata@.edges == span_below(low, code as int, start, final_state),
                decreases high_code - code + 1,
            {
                let ghost before = automata@.edges;
                let found = symbol_of(code);
                if let Some(symbol) = found {
                    automata.add_transition(start, TransitionType::Symbol(symbol), final_state);
                }
                proof {
                    let after = span_below(low, code + 1, start, final_state);
                    assert forall|edge: Edge| automata@.edges.contains(edge) <==> after.contains(
                        edge,
                    ) by {
                        if let Some(added) = found {
                            lemma_char_code(added);
                            assert(automata@.edges == before.insert(
                                (start, TransitionType::Symbol(added), final_state),
                            ));
                        } else {
                            assert(automata@.edges == before);
                        }
                        if let TransitionType::Symbol(symbol) = edge.1 {
                            lemma_char_code(symbol);
                        }
                    }
                    assert(automata@.edges =~= after);
                }
                code += 1;
            }
            proof {
                let whole = span(low, high, start as nat);
                assert forall|edge: Edge| automata@.edges.contains(edge) <==> whole.edges.contains(
                    edge,
                ) by {
                    if let TransitionType::Symbol(symbol) = edge.1 {
                        lemma_char_code(symbol);
                    }
                }
                assert(automata@ =~= whole);
            }
            automata
        },
    }
}

/// Builds the fragment of `tree`, taking its state numbers from `state`.
///
/// Every state of the fragment is at least the value of `state` before the
/// call and below its value after.
pub fn build_automata_from_ast(tree: RegexAST, state: &mut State) -> (automata: Automata)
    requires
        well_formed(tree),
        *old(state) + state_count(tree) <= usize::MAX,
    ensures
        automata.wf(),
        automata@ == built(tree, *old(state) as nat),
        *final(state) == *old(state) + state_count(tree),
        within(automata@, *old(state) as nat, *final(state) as nat),
    decreases tree,
{
    proof {
        lemma_built_within(tree, *state as nat);
    }
    match tree {
        RegexAST::Binary(lhs, op, rhs) => {
            let mut lhs = build_automata_from_ast(*lhs, state);
            let rhs = build_automata_from_ast(*rhs, state);

            match op {
                BinaryOp::Union => {
                    let mut automata = Automata::new(*state);
                    automata.add_transition(*state, TransitionType::Epsilon, lhs.start_state());
                    automata.add_transition(*state, TransitionType::Epsilon, rhs.start_state());
                    let ghost fragment = fork(lhs@, rhs@, *state as nat);

                    *state += 1;

                    automata.merge_automata(lhs);
                    automata.merge_automata(rhs);
                    assert(automata@ =~= fragment);
                    automata
                },
                BinaryOp::Concatenation => {
                    let mut automata = Automata::new(lhs.start_state());
                    link_states(&mut automata, lhs.final_states(), rhs.start_state());
                    let ghost fragment = chain(lhs@, rhs@);
                    lhs.clear_final_states();

                    automata.merge_automata(lhs);
                    automata.merge_automata(rhs);
                    assert(automata@ =~= fragment);
                    automata
                },
            }
        },
        RegexAST::Unary(lhs, op) => {
            let lhs = build_automata_from_ast(*lhs, state);

            let new_start = *state;
            let mut automata = Automata::new(new_start);
            link_states(&mut automata, lhs.final_states(), lhs.start_state());
            automata.add_transition(new_start, TransitionType::Epsilon, lhs.start_state());
            match op {
                UnaryOp::ClosurePlus => {},
                UnaryOp::ClosureStar => {
                    automata.add_final_state(new_start);
                },
            }
            let ghost fragment = repeat(lhs@, op, new_start as nat);

            *state += 1;

            automata.merge_automata(lhs);
            assert(automata@ =~= fragment);
            automata
        },
        RegexAST::Symbol(symbol) => create_automata_for_transtition_type(
            TransitionType::Symbol(symbol),
            state,
        ),
        RegexAST::CharacterClass(character_class_type) => parse_character_class(
            character_class_type,
            state,
        ),
        RegexAST::EmptyString => create_automata_for_transtition_type(
            TransitionType::Epsilon,
            state,
        ),
    }
}

fn class_is_well_formed(class: &CharacterClassType) -> (ok: bool)
    ensures
        ok == class_well_formed(*class),
    decreases class,
{
    match class {
        CharacterClassType::Single(_) => true,
        CharacterClassType::Binary(lhs, CharacterClassBinaryOp::Union, rhs) => {
            class_is_well_formed(lhs) && class_is_well_formed(rhs)
        },
        CharacterClassType::Binary(lhs, CharacterClassBinaryOp::Range, rhs) => {
            let low = match **lhs {
                CharacterClassType::Single(_) => true,
                _ => false,
            };
            let high = match **rhs {
                CharacterClassType::Single(_) => true,
                _ => false,
            };
            low && high
        },
    }
}

/// Whether both ends of every range in the tree are single characters.
pub fn is_well_formed(tree: &RegexAST) -> (ok: bool)
    ensures
        ok == well_formed(*tree),
    decreases tree,
{
    match tree {
        RegexAST::Binary(lhs, _, rhs) => is_well_formed(lhs) && is_well_formed(rhs),
        RegexAST::Unary(child, _) => is_well_formed(child),
        RegexAST::CharacterClass(class) => class_is_well_formed(class),
        _ => true,
    }
}

fn sum_of(left: Option<usize>, right: Option<usize>, extra: usize) -> (total: Option<usize>)
    ensures
        match (left, right) {
            (Some(a), Some(b)) => if a + b + extra <= usize::MAX {
                total == Some((a + b + extra) as usize)
            } else {
                total is None
            },
            _ => total is None,
        },
{
    match (left, right) {
        (Some(a), Some(b)) => match a.checked_add(b) {
            Some(both) => both.checked_add(extra),
            None => None,
        },
        _ => None,
    }
}

fn count_class_states(class: &CharacterClassType) -> (count: Option<usize>)
    ensures
        match count {
            Some(found) => found == class_state_count(*class),
            None => class_state_count(*class) > usize::MAX,
        },
    decreases class,
{
    match class {
        CharacterClassType::Binary(lhs, CharacterClassBinaryOp::Union, rhs) => sum_of(
            count_class_states(lhs),
            count_class_states(rhs),
            1,
        ),
        _ => Some(2),
    }
}

/// The number of states that the fragment of the tree takes, if a state
/// number can hold it.
pub fn count_states(tree: &RegexAST) -> (count: Option<usize>)
    ensures
        match count {
            Some(found) => found == state_count(*tree),
            None => state_count(*tree) > usize::MAX,
        },
    decreases tree,
{
    match tree {
        RegexAST::Binary(lhs, BinaryOp::Union, rhs) => sum_of(
            count_states(lhs),
            count_states(rhs),
            1,
        ),
        RegexAST::Binary(lhs, BinaryOp::Concatenation, rhs) => sum_of(
            count_states(lhs),
            count_states(rhs),
            0,
        ),
        RegexAST::Unary(child, _) => sum_of(count_states(child), Some(0), 1),
        RegexAST::CharacterClass(class) => count_class_states(class),
        _ => Some(2),
    }
}

} // verus!

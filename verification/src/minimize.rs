//! From an automaton with epsilon edges to a minimal deterministic one:
//! reverse, determinize, reverse again, determinize again, and drop what
//! the start state does not reach after each determinization.

use crate::automata::{
    increasing, lemma_edge_states, lemma_states_finite, Automata, Dfa, DfaModel, Edge, Nfa,
    State, TransitionType,
};
use crate::builder::{build_automata_from_ast, built, state_count, well_formed};
use crate::language::{accepts, lemma_minimized_accepts, lemma_top_exists};
use crate::matching::{lemma_built_accepts, tree_matches};
use crate::parser::RegexAST;
use crate::sets::{difference, insert_all, intersects, same_items, set_items};
use std::collections::BTreeSet;
use vstd::prelude::*;
use vstd::set_lib::*;

verus! {

/// Whether `top` is the greatest state of the automaton.
pub open spec fn is_top_state(nfa: Nfa, top: State) -> bool {
    nfa.states().contains(top) && forall|state: State| #[trigger]
        nfa.states().contains(state) ==> state <= top
}

/// The greatest state of the automaton.
pub open spec fn top_state(nfa: Nfa) -> State {
    choose|top: State| is_top_state(nfa, top)
}

/// The automaton with every edge turned round. Its start is a new state, one
/// above the greatest, with an epsilon edge to every state that was final;
/// its only final state is the old start.
pub open spec fn reversed(nfa: Nfa) -> Nfa {
    let start = (top_state(nfa) + 1) as State;
    Nfa {
        start,
        finals: set![nfa.start],
        edges: Set::new(
            |edge: Edge|
                nfa.edges.contains((edge.2, edge.1, edge.0)) || (edge.0 == start && edge.1
                    == TransitionType::Epsilon && nfa.finals.contains(edge.2)),
        ),
    }
}

/// The epsilon edges from `from` to every state of `to`.
pub open spec fn fan(from: State, to: Set<State>) -> Set<Edge> {
    Set::new(
        |edge: Edge| edge.0 == from && edge.1 == TransitionType::Epsilon && to.contains(edge.2),
    )
}

/// Whether `state` is reached from the start by `steps` edges that each
/// read a character.
pub open spec fn reached_in(nfa: Nfa, state: State, steps: nat) -> bool
    decreases steps,
{
    if steps == 0 {
        state == nfa.start
    } else {
        exists|mid: State, symbol: char|
            reached_in(nfa, mid, (steps - 1) as nat) && nfa.edges.contains(
                (mid, TransitionType::Symbol(symbol), state),
            )
    }
}

/// Whether `state` is reached from the start along edges that each read a
/// character.
pub open spec fn reached(nfa: Nfa, state: State) -> bool {
    exists|steps: nat| reached_in(nfa, state, steps)
}

/// The states that the start reaches along edges that each read a
/// character.
pub open spec fn reached_states(nfa: Nfa) -> Set<State> {
    Set::new(|state: State| reached(nfa, state))
}

/// The automaton without the edges that leave a state which the start does
/// not reach.
pub open spec fn pruned(nfa: Nfa) -> Nfa {
    Nfa { edges: nfa.edges.filter(|edge: Edge| reached(nfa, edge.0)), ..nfa }
}

/// Whether no edge that reads a character leads out of `set`.
pub open spec fn symbol_closed(nfa: Nfa, set: Set<State>) -> bool {
    forall|from: State, symbol: char, to: State|
        set.contains(from) && #[trigger] nfa.edges.contains(
            (from, TransitionType::Symbol(symbol), to),
        ) ==> set.contains(to)
}

/// A set that holds the start and that no edge reading a character leaves
/// holds every reached state.
pub proof fn lemma_symbol_closed_holds_reached(nfa: Nfa, set: Set<State>, state: State, steps: nat)
    requires
        set.contains(nfa.start),
        symbol_closed(nfa, set),
        reached_in(nfa, state, steps),
    ensures
        set.contains(state),
    decreases steps,
{
    if steps > 0 {
        let (mid, symbol) = choose|mid: State, symbol: char|
            reached_in(nfa, mid, (steps - 1) as nat) && nfa.edges.contains(
                (mid, TransitionType::Symbol(symbol), state),
            );
        lemma_symbol_closed_holds_reached(nfa, set, mid, (steps - 1) as nat);
    }
}

/// The greatest state is unique.
pub proof fn lemma_top_state(nfa: Nfa, top: State)
    requires
        is_top_state(nfa, top),
    ensures
        top_state(nfa) == top,
{
    let chosen = top_state(nfa);
    assert(is_top_state(nfa, chosen));
    assert(chosen <= top);
    assert(top <= chosen);
}

fn greatest(states: &BTreeSet<State>) -> (top: State)
    ensures
        states@ =~= Set::<State>::empty() ==> top == 0,
        !(states@ =~= Set::<State>::empty()) ==> states@.contains(top),
        forall|state: State| #[trigger] states@.contains(state) ==> state <= top,
{
    let items = set_items(states);
    let mut top: State = 0;
    let mut i: usize = 0;
    while i < items.len()
        invariant
            i <= items.len(),
            items@.to_set() == states@,
            i == 0 ==> top == 0,
            i > 0 ==> states@.contains(top),
            forall|j: int| 0 <= j < i ==> (#[trigger] items@[j]) <= top,
        decreases items.len() - i,
    {
        assert(items@.to_set().contains(items@[i as int]));
        if items[i] >= top {
            top = items[i];
        }
        i += 1;
    }
    proof {
        assert forall|state: State| #[trigger] states@.contains(state) implies state <= top by {
            assert(items@.to_set().contains(state));
            let j = choose|j: int| 0 <= j < items@.len() && items@[j] == state;
        }
        if items@.len() == 0 {
            assert forall|state: State| !states@.contains(state) by {
                if states@.contains(state) {
                    assert(items@.to_set().contains(state));
                    let j = choose|j: int| 0 <= j < items@.len() && items@[j] == state;
                }
            }
            assert(states@ =~= Set::<State>::empty());
        }
    }
    top
}

/// Turns every edge round, with a new start state that leads to the states
/// that were final.
pub fn reverse(automata: Automata) -> (turned: Automata)
    requires
        automata.wf(),
        forall|state: State| #[trigger] automata@.states().contains(state) ==> state < usize::MAX,
    ensures
        turned.wf(),
        turned@ == reversed(automata@),
{
    let states = automata.states();
    let top = greatest(&states);
    proof {
        assert(states@.contains(automata@.start));
        lemma_top_state(automata@, top);
    }
    let mut new_automata = Automata::new(top + 1);
    new_automata.add_final_state(automata.start_state());

    let list = automata.edges();
    let mut i: usize = 0;
    while i < list.len()
        invariant
            i <= list.len(),
            new_automata.wf(),
            new_automata@.start == top + 1,
            new_automata@.finals == set![automata@.start],
            new_automata@.edges == list@.take(i as int).to_set().map(
                |edge: Edge| (edge.2, edge.1, edge.0),
            ),
        decreases list.len() - i,
    {
        proof {
            list@.lemma_take_succ_push(i as int);
            list@.take(i as int).lemma_push_to_set_commute(list@[i as int]);
            list@.take(i as int).to_set().lemma_set_map_insert_commute(
                list@[i as int],
                |edge: Edge| (edge.2, edge.1, edge.0),
            );
        }
        let (orig_state, symbol, dest_state) = list[i];
        new_automata.add_transition(dest_state, symbol, orig_state);
        i += 1;
    }
    assert(list@.take(list@.len() as int) == list@);
    let ghost turned_edges = new_automata@.edges;

    let finals = set_items(automata.final_states());
    let mut j: usize = 0;
    while j < finals.len()
        invariant
            j <= finals.len(),
            new_automata.wf(),
            new_automata@.start == top + 1,
            new_automata@.finals == set![automata@.start],
            new_automata@.edges == turned_edges.union(
                fan((top + 1) as State, finals@.take(j as int).to_set()),
            ),
        decreases finals.len() - j,
    {
        proof {
            finals@.lemma_take_succ_push(j as int);
            finals@.take(j as int).lemma_push_to_set_commute(finals@[j as int]);
        }
        new_automata.add_transition(top + 1, TransitionType::Epsilon, finals[j]);
        assert(new_automata@.edges =~= turned_edges.union(
            fan((top + 1) as State, finals@.take(j + 1).to_set()),
        ));
        j += 1;
    }
    proof {
        assert(finals@.take(finals@.len() as int) == finals@);
        let target = reversed(automata@);
        assert forall|edge: Edge| new_automata@.edges.contains(edge) <==> target.edges.contains(
            edge,
        ) by {
            let back = (edge.2, edge.1, edge.0);
            if turned_edges.contains(edge) {
                let origin = choose|origin: Edge|
                    list@.to_set().contains(origin) && edge == (origin.2, origin.1, origin.0);
                assert(origin == back);
            }
            if automata@.edges.contains(back) {
                assert(list@.to_set().contains(back));
                assert(turned_edges.contains((back.2, back.1, back.0)));
            }
        }
        assert(new_automata@ =~= target);
    }
    new_automata
}

/// The states that one step under one of the first `count` of `symbols`
/// leads to from a state of `from`.
pub open spec fn symbol_targets(nfa: Nfa, from: Set<State>, symbols: Seq<char>, count: int) -> Set<
    State,
> {
    Set::new(
        |to: State|
            exists|i: int|
                0 <= i < count && nfa.delta(
                    from,
                    TransitionType::Symbol(#[trigger] symbols[i]),
                ).contains(to),
    )
}

/// The states that one step under a character of `alphabet` leads to from
/// `states`.
fn successors(automata: &Automata, states: &BTreeSet<State>, alphabet: &Vec<char>) -> (targets:
    BTreeSet<State>)
    requires
        automata.wf(),
    ensures
        targets@ == symbol_targets(automata@, states@, alphabet@, alphabet@.len() as int),
{
    let mut targets: BTreeSet<State> = BTreeSet::new();
    let mut k: usize = 0;
    while k < alphabet.len()
        invariant
            k <= alphabet.len(),
            automata.wf(),
            targets@ == symbol_targets(automata@, states@, alphabet@, k as int),
        decreases alphabet.len() - k,
    {
        let found = automata.delta(states, TransitionType::Symbol(alphabet[k]));
        insert_all(&mut targets, &found);
        assert(targets@ =~= symbol_targets(automata@, states@, alphabet@, k + 1));
        k += 1;
    }
    targets
}

/// Drops the edges that leave a state which the start state does not reach
/// along edges that each read a character.
pub fn reachable(automata: Automata) -> (kept: Automata)
    requires
        automata.wf(),
    ensures
        kept.wf(),
        kept@ == pruned(automata@),
{
    let mut automata = automata;
    let alphabet = automata.alphabet();
    let mut reachable_states: BTreeSet<State> = BTreeSet::new();
    reachable_states.insert(automata.start_state());
    let mut new_states: BTreeSet<State> = BTreeSet::new();
    new_states.insert(automata.start_state());
    let ghost nfa = automata@;
    let ghost universe = nfa.states().insert(nfa.start);
    proof {
        automata.lemma_wf_finite();
        lemma_states_finite(nfa);
        assert(reached_in(nfa, nfa.start, 0));
    }

    while !new_states.is_empty()
        invariant
            automata.wf(),
            automata@ == nfa,
            alphabet@.to_set() == nfa.alphabet(),
            universe == nfa.states().insert(nfa.start),
            universe.finite(),
            reachable_states@.subset_of(universe),
            new_states@.subset_of(reachable_states@),
            reachable_states@.contains(nfa.start),
            forall|state: State| #[trigger]
                reachable_states@.contains(state) ==> reached(nfa, state),
            forall|from: State, symbol: char, to: State|
                reachable_states@.contains(from) && !new_states@.contains(from)
                    && #[trigger] nfa.edges.contains((from, TransitionType::Symbol(symbol), to))
                    ==> reachable_states@.contains(to),
        decreases
                universe.difference(reachable_states@).len() + (if new_states@.is_empty() {
                    0int
                } else {
                    1int
                }),
    {
        let ghost old_new = new_states@;
        let ghost old_reach = reachable_states@;
        let temp = successors(&automata, &new_states, &alphabet);
        new_states = difference(&temp, &reachable_states);
        insert_all(&mut reachable_states, &new_states);
        proof {
            assert forall|state: State| #[trigger]
                reachable_states@.contains(state) implies reached(nfa, state)
                && universe.contains(state) by {
                if !old_reach.contains(state) {
                    assert(temp@.contains(state));
                    let i = choose|i: int|
                        0 <= i < alphabet@.len() && nfa.delta(
                            old_new,
                            TransitionType::Symbol(#[trigger] alphabet@[i]),
                        ).contains(state);
                    let label = TransitionType::Symbol(alphabet@[i]);
                    let from = choose|from: State|
                        old_new.contains(from) && nfa.edges.contains((from, label, state));
                    lemma_edge_states(nfa, (from, label, state));
                    let steps = choose|steps: nat| reached_in(nfa, from, steps);
                    assert(reached_in(nfa, state, steps + 1));
                }
            }
            assert forall|from: State, symbol: char, to: State|
                reachable_states@.contains(from) && !new_states@.contains(from)
                    && #[trigger] nfa.edges.contains(
                    (from, TransitionType::Symbol(symbol), to),
                ) implies reachable_states@.contains(to) by {
                if old_reach.contains(from) && old_new.contains(from) {
                    assert(nfa.alphabet().contains(symbol));
                    assert(alphabet@.to_set().contains(symbol));
                    let i = choose|i: int| 0 <= i < alphabet@.len() && alphabet@[i] == symbol;
                    assert(nfa.delta(old_new, TransitionType::Symbol(alphabet@[i])).contains(to));
                    assert(temp@.contains(to));
                }
            }
            if !new_states@.is_empty() {
                axiom_is_empty(new_states@);
                let fresh = choose|fresh: State| new_states@.contains(fresh);
                universe.difference(reachable_states@).lemma_subset_not_in_lt(
                    universe.difference(old_reach),
                    fresh,
                );
            } else {
                assert(reachable_states@ =~= old_reach);
            }
        }
    }

    proof {
        assert forall|state: State| reached(nfa, state) implies reachable_states@.contains(
            state,
        ) by {
            let steps = choose|steps: nat| reached_in(nfa, state, steps);
            assert(symbol_closed(nfa, reachable_states@));
            lemma_symbol_closed_holds_reached(nfa, reachable_states@, state, steps);
        }
    }
    let states = automata.states();
    let unreachable_states = difference(&states, &reachable_states);
    let items = set_items(&unreachable_states);
    let mut i: usize = 0;
    while i < items.len()
        invariant
            i <= items.len(),
            automata.wf(),
            automata@ == (Nfa {
                edges: nfa.edges.filter(
                    |edge: Edge| !items@.take(i as int).to_set().contains(edge.0),
                ),
                ..nfa
            }),
        decreases items.len() - i,
    {
        proof {
            items@.lemma_take_succ_push(i as int);
            items@.take(i as int).lemma_push_to_set_commute(items@[i as int]);
        }
        automata.remove_state(items[i]);
        assert(automata@.edges =~= nfa.edges.filter(
            |edge: Edge| !items@.take(i + 1).to_set().contains(edge.0),
        ));
        i += 1;
    }
    proof {
        assert(items@.take(items@.len() as int) == items@);
        assert forall|edge: Edge| automata@.edges.contains(edge) <==> pruned(nfa).edges.contains(
            edge,
        ) by {
            if nfa.edges.contains(edge) {
                lemma_edge_states(nfa, edge);
            }
        }
        assert(automata@ =~= pruned(nfa));
    }
    automata
}

/// The states that a set of states leads to by reading `symbol`, epsilon
/// edges after it included.
pub open spec fn subset_step(nfa: Nfa, from: Set<State>, symbol: char) -> Set<State> {
    nfa.eclosure(nfa.delta(from, TransitionType::Symbol(symbol)))
}

/// The states that the automaton may be in after reading `text`.
pub open spec fn subset_after(nfa: Nfa, text: Seq<char>) -> Set<State>
    decreases text.len(),
{
    if text.len() == 0 {
        nfa.eclosure(set![nfa.start])
    } else {
        subset_step(nfa, subset_after(nfa, text.drop_last()), text.last())
    }
}

/// Whether every character of `text` is in `alphabet`.
pub open spec fn over(text: Seq<char>, alphabet: Set<char>) -> bool {
    forall|i: int| 0 <= i < text.len() ==> alphabet.contains(#[trigger] text[i])
}

/// Whether the automaton may be in exactly the states of `subset` after
/// reading some text over its alphabet.
pub open spec fn subset_reached(nfa: Nfa, subset: Set<State>) -> bool {
    exists|text: Seq<char>|
        over(text, nfa.alphabet()) && #[trigger] subset_after(nfa, text) == subset
}

/// Whether `edge` is the move of the subset construction from the subset
/// numbered `edge.0` to the one numbered `edge.2`.
pub open spec fn is_move(nfa: Nfa, subsets: Seq<Set<State>>, edge: Edge) -> bool {
    &&& edge.0 < subsets.len()
    &&& edge.2 < subsets.len()
    &&& edge.1 matches TransitionType::Symbol(symbol) && nfa.alphabet().contains(symbol)
        && subsets[edge.2 as int] == subset_step(nfa, subsets[edge.0 as int], symbol)
}

/// Whether `dfa` is the subset construction of `nfa`, where the state `i` of
/// `dfa` stands for the subset `subsets[i]`.
///
/// The subsets are those that `nfa` reaches by reading a text over its
/// alphabet, each once; the first is the one reached by reading nothing, and
/// it is the start. A state is final where its subset holds a final state of
/// `nfa`. From every state, every character of the alphabet leads to the
/// state of the subset that one step leads to.
pub open spec fn determinized(nfa: Nfa, dfa: Nfa, subsets: Seq<Set<State>>) -> bool {
    &&& 0 < subsets.len() <= usize::MAX
    &&& subsets.no_duplicates()
    &&& subsets[0] == subset_after(nfa, Seq::empty())
    &&& (forall|subset: Set<State>|
        #![trigger subsets.contains(subset)]
        #![trigger subset_reached(nfa, subset)]
        subsets.contains(subset) <==> subset_reached(nfa, subset))
    &&& dfa.start == 0
    &&& (forall|state: State| #[trigger]
        dfa.finals.contains(state) <==> state < subsets.len() && !subsets[state as int].disjoint(
            nfa.finals,
        ))
    &&& (forall|edge: Edge|
        #![trigger dfa.edges.contains(edge)]
        #![trigger is_move(nfa, subsets, edge)]
        dfa.edges.contains(edge) <==> is_move(nfa, subsets, edge))
}

/// The subsets found so far after the first `count` of the characters have
/// been read from `from`: a subset that was not found before comes last.
#[verifier::opaque]
pub open spec fn expanded(
    nfa: Nfa,
    symbols: Seq<char>,
    found: Seq<Set<State>>,
    from: Set<State>,
    count: nat,
) -> Seq<Set<State>>
    decreases count,
{
    if count == 0 {
        found
    } else {
        let before = expanded(nfa, symbols, found, from, (count - 1) as nat);
        let next = subset_step(nfa, from, symbols[count - 1]);
        if before.contains(next) {
            before
        } else {
            before.push(next)
        }
    }
}

/// The state of the search for subsets: those found, in the order in which
/// they were found, and the numbers of those that wait on a stack.
pub struct Search {
    pub found: Seq<Set<State>>,
    pub pending: Seq<State>,
}

/// The numbers from `from` up to, not including, `to`.
pub open spec fn numbers(from: int, to: int) -> Seq<State> {
    Seq::new((to - from) as nat, |i: int| (from + i) as State)
}

/// One step of the search: the subset on top of the stack leaves it, every
/// character is read from it in turn, and the subsets found that way enter
/// the stack in the order in which they were found.
pub open spec fn search_step(nfa: Nfa, symbols: Seq<char>, search: Search) -> Search {
    if search.pending.len() == 0 {
        search
    } else {
        let from = search.found[search.pending.last() as int];
        let found = expanded(nfa, symbols, search.found, from, symbols.len());
        Search {
            found,
            pending: search.pending.drop_last() + numbers(
                search.found.len() as int,
                found.len() as int,
            ),
        }
    }
}

/// The search after `steps` steps; it begins with the subset reached by
/// reading nothing, which has the number zero.
#[verifier::opaque]
pub open spec fn search_after(nfa: Nfa, symbols: Seq<char>, steps: nat) -> Search
    decreases steps,
{
    if steps == 0 {
        Search { found: seq![subset_after(nfa, Seq::empty())], pending: seq![0usize] }
    } else {
        search_step(nfa, symbols, search_after(nfa, symbols, (steps - 1) as nat))
    }
}

/// Whether `subsets` are the subsets in the order in which the search finds
/// them, the characters of the alphabet read in the order of their code
/// points.
pub open spec fn discovered(nfa: Nfa, subsets: Seq<Set<State>>) -> bool {
    exists|symbols: Seq<char>, steps: nat|
        increasing(symbols) && symbols.to_set() == nfa.alphabet() && #[trigger] search_after(
            nfa,
            symbols,
            steps,
        ) == (Search { found: subsets, pending: Seq::empty() })
}

/// Whether `dfa` is the subset construction of `nfa` with its states
/// numbered in the order in which the search finds their subsets.
pub open spec fn subset_construction(nfa: Nfa, dfa: Nfa, subsets: Seq<Set<State>>) -> bool {
    determinized(nfa, dfa, subsets) && discovered(nfa, subsets)
}

/// One more character read in the search.
proof fn lemma_expanded_step(
    nfa: Nfa,
    symbols: Seq<char>,
    found: Seq<Set<State>>,
    from: Set<State>,
    count: nat,
    before: Seq<Set<State>>,
    after: Seq<Set<State>>,
    pending: Seq<State>,
)
    requires
        count < symbols.len(),
        before == expanded(nfa, symbols, found, from, count),
        found.len() <= before.len(),
        after == (if before.contains(subset_step(nfa, from, symbols[count as int])) {
            before
        } else {
            before.push(subset_step(nfa, from, symbols[count as int]))
        }),
        pending == numbers(found.len() as int, before.len() as int),
        after.len() <= usize::MAX,
    ensures
        after == expanded(nfa, symbols, found, from, count + 1),
        numbers(found.len() as int, after.len() as int) == (if after.len() == before.len() {
            pending
        } else {
            pending.push(before.len() as State)
        }),
{
    reveal_with_fuel(expanded, 2);
    assert(numbers(found.len() as int, after.len() as int) =~= (if after.len() == before.len() {
        pending
    } else {
        pending.push(before.len() as State)
    }));
}

/// The search begins with the first subset found and waiting.
proof fn lemma_search_begins(
    nfa: Nfa,
    symbols: Seq<char>,
    found: Seq<Set<State>>,
    pending: Seq<State>,
)
    requires
        found == seq![subset_after(nfa, Seq::empty())],
        pending == seq![0usize],
    ensures
        search_after(nfa, symbols, 0) == (Search { found, pending }),
        found == expanded(nfa, symbols, found, found[0], 0),
{
    reveal_with_fuel(search_after, 1);
    reveal_with_fuel(expanded, 1);
}

/// Nothing read yet leaves the subsets as they are.
proof fn lemma_expanded_none(nfa: Nfa, symbols: Seq<char>, found: Seq<Set<State>>, from: Set<State>)
    ensures
        found == expanded(nfa, symbols, found, from, 0),
        numbers(found.len() as int, found.len() as int) == Seq::<State>::empty(),
{
    reveal_with_fuel(expanded, 1);
    assert(numbers(found.len() as int, found.len() as int) =~= Seq::<State>::empty());
}

/// One step of the search, from what it was to what it is.
proof fn lemma_search_steps(
    nfa: Nfa,
    symbols: Seq<char>,
    steps: nat,
    before: Search,
    after: Search,
)
    requires
        search_after(nfa, symbols, steps) == before,
        before.pending.len() > 0,
        after.found == expanded(
            nfa,
            symbols,
            before.found,
            before.found[before.pending.last() as int],
            symbols.len(),
        ),
        after.pending == before.pending.drop_last() + numbers(
            before.found.len() as int,
            after.found.len() as int,
        ),
    ensures
        search_after(nfa, symbols, steps + 1) == after,
{
    reveal_with_fuel(search_after, 2);
}

/// The subsets of `whole`.
pub open spec fn subsets_of(whole: Set<State>) -> Set<Set<State>> {
    Set::new(|part: Set<State>| part.subset_of(whole))
}

/// A finite set has finitely many subsets.
pub proof fn lemma_subsets_finite(whole: Set<State>)
    requires
        whole.finite(),
    ensures
        subsets_of(whole).finite(),
    decreases whole.len(),
{
    if whole.len() == 0 {
        assert(whole =~= Set::<State>::empty());
        assert forall|part: Set<State>| subsets_of(whole).contains(part) implies part
            == Set::<State>::empty() by {
            assert(part =~= Set::<State>::empty());
        }
        assert(subsets_of(whole) =~= set![Set::<State>::empty()]);
    } else {
        let item = whole.choose();
        let rest = whole.remove(item);
        lemma_subsets_finite(rest);
        let with_item = subsets_of(rest).map(|part: Set<State>| part.insert(item));
        subsets_of(rest).lemma_map_finite(|part: Set<State>| part.insert(item));
        assert forall|part: Set<State>| subsets_of(whole).contains(part) implies subsets_of(
            rest,
        ).union(with_item).contains(part) by {
            if part.contains(item) {
                let smaller = part.remove(item);
                assert(smaller.subset_of(rest));
                assert(subsets_of(rest).contains(smaller));
                assert(smaller.insert(item) =~= part);
            } else {
                assert(part.subset_of(rest));
            }
        }
        lemma_set_subset_finite(subsets_of(rest).union(with_item), subsets_of(whole));
    }
}

/// Epsilon edges lead from a set only to states of the automaton.
pub proof fn lemma_eclosure_within(nfa: Nfa, from: Set<State>)
    ensures
        nfa.eclosure(from).subset_of(from.union(nfa.states())),
{
    assert forall|to: State| nfa.eclosure(from).contains(to) implies from.union(
        nfa.states(),
    ).contains(to) by {
        let state = choose|state: State| from.contains(state) && nfa.eps_reach(state, to);
        let steps = choose|steps: nat| nfa.eps_reach_in(state, to, steps);
        if steps > 0 {
            let mid = choose|mid: State|
                nfa.eps_reach_in(state, mid, (steps - 1) as nat) && nfa.edges.contains(
                    (mid, TransitionType::Epsilon, to),
                );
            lemma_edge_states(nfa, (mid, TransitionType::Epsilon, to));
        }
    }
}

/// Every subset that the automaton reaches lies within its states and its
/// start.
pub proof fn lemma_subset_step_within(nfa: Nfa, from: Set<State>, symbol: char)
    ensures
        subset_step(nfa, from, symbol).subset_of(nfa.states()),
{
    let label = TransitionType::Symbol(symbol);
    assert forall|to: State| nfa.delta(from, label).contains(to) implies nfa.states().contains(
        to,
    ) by {
        let state = choose|state: State|
            from.contains(state) && nfa.edges.contains((state, label, to));
        lemma_edge_states(nfa, (state, label, to));
    }
    lemma_eclosure_within(nfa, nfa.delta(from, label));
}

/// A list of subsets that holds the first subset and every step from one of
/// its members holds every subset that the automaton reaches.
pub proof fn lemma_closed_holds_reached(nfa: Nfa, subsets: Seq<Set<State>>, text: Seq<char>)
    requires
        subsets.contains(subset_after(nfa, Seq::empty())),
        forall|i: int, symbol: char|
            0 <= i < subsets.len() && nfa.alphabet().contains(symbol) ==> subsets.contains(
                #[trigger] subset_step(nfa, subsets[i], symbol),
            ),
        over(text, nfa.alphabet()),
    ensures
        subsets.contains(subset_after(nfa, text)),
    decreases text.len(),
{
    if text.len() == 0 {
        assert(text =~= Seq::<char>::empty());
    } else {
        let shorter = text.drop_last();
        assert(over(shorter, nfa.alphabet())) by {
            assert forall|i: int| 0 <= i < shorter.len() implies nfa.alphabet().contains(
                #[trigger] shorter[i],
            ) by {
                assert(shorter[i] == text[i]);
            }
        }
        lemma_closed_holds_reached(nfa, subsets, shorter);
        let i = choose|i: int| 0 <= i < subsets.len() && subsets[i] == subset_after(nfa, shorter);
        assert(nfa.alphabet().contains(text[text.len() - 1]));
        assert(subsets.contains(subset_step(nfa, subsets[i], text.last())));
    }
}

/// The views of a list of sets.
pub open spec fn views_of(seen: Seq<BTreeSet<State>>) -> Seq<Set<State>> {
    Seq::new(seen.len(), |i: int| seen[i]@)
}

/// The place of `subset` among `seen`, if it is there.
fn find_subset(seen: &Vec<BTreeSet<State>>, subset: &BTreeSet<State>) -> (place: Option<usize>)
    ensures
        place matches Some(i) ==> i < seen@.len() && seen@[i as int]@ == subset@,
        place is None ==> !views_of(seen@).contains(subset@),
{
    let mut i: usize = 0;
    while i < seen.len()
        invariant
            i <= seen.len(),
            forall|j: int| 0 <= j < i ==> seen@[j]@ != subset@,
        decreases seen.len() - i,
    {
        if same_items(&seen[i], subset) {
            return Some(i);
        }
        i += 1;
    }
    proof {
        let views = views_of(seen@);
        if views.contains(subset@) {
            let j = choose|j: int| 0 <= j < views.len() && views[j] == subset@;
            assert(seen@[j]@ == subset@);
        }
    }
    None
}

/// Whether the moves out of `edge.0` have been added: all of them where the
/// state is in `done`, those under `symbols` where it is `curr`.
spec fn covered(done: Set<State>, curr: State, symbols: Set<char>, edge: Edge) -> bool {
    done.contains(edge.0) || (edge.0 == curr && (edge.1 matches TransitionType::Symbol(symbol)
        && symbols.contains(symbol)))
}

/// What holds of the subsets found so far, whatever has been done with them.
spec fn found(nfa: Nfa, views: Seq<Set<State>>, universe: Set<State>) -> bool {
    &&& 0 < views.len()
    &&& views[0] == subset_after(nfa, Seq::empty())
    &&& views.no_duplicates()
    &&& (forall|i: int| 0 <= i < views.len() ==> (#[trigger] views[i]).subset_of(universe))
    &&& (forall|i: int| 0 <= i < views.len() ==> subset_reached(nfa, #[trigger] views[i]))
}

/// What holds of the automaton under construction: the states in `done`,
/// and `curr` as far as `symbols` go, have their moves; those and `curr`
/// are final where they should be.
spec fn explored(
    nfa: Nfa,
    dfa: Nfa,
    views: Seq<Set<State>>,
    done: Set<State>,
    curr: State,
    symbols: Set<char>,
    decided: bool,
) -> bool {
    &&& dfa.start == 0
    &&& (forall|state: State| #[trigger] done.contains(state) ==> state < views.len())
    &&& (forall|state: State| #[trigger]
        dfa.finals.contains(state) <==> (done.contains(state) || (decided && state == curr))
            && state < views.len() && !views[state as int].disjoint(nfa.finals))
    &&& (forall|edge: Edge| #[trigger]
        dfa.edges.contains(edge) <==> covered(done, curr, symbols, edge) && is_move(
            nfa,
            views,
            edge,
        ))
    &&& (forall|state: State, symbol: char|
        done.contains(state) && nfa.alphabet().contains(symbol) ==> views.contains(
            #[trigger] subset_step(nfa, views[state as int], symbol),
        ))
    &&& (forall|symbol: char|
        symbols.contains(symbol) && curr < views.len() ==> views.contains(
            #[trigger] subset_step(nfa, views[curr as int], symbol),
        ))
}

/// One more subset, not among those found, keeps what holds of them and of
/// the automaton, and leaves one subset fewer to find.
proof fn lemma_found_one_more(
    nfa: Nfa,
    dfa: Nfa,
    views: Seq<Set<State>>,
    universe: Set<State>,
    done: Set<State>,
    curr: State,
    symbols: Set<char>,
    subset: Set<State>,
)
    requires
        found(nfa, views, universe),
        explored(nfa, dfa, views, done, curr, symbols, true),
        curr < views.len(),
        !views.contains(subset),
        subset.subset_of(universe),
        subset_reached(nfa, subset),
        subsets_of(universe).finite(),
    ensures
        found(nfa, views.push(subset), universe),
        explored(nfa, dfa, views.push(subset), done, curr, symbols, true),
        subsets_of(universe).difference(views.push(subset).to_set()).len() + 1 == subsets_of(
            universe,
        ).difference(views.to_set()).len(),
{
    let more = views.push(subset);
    assert forall|i: int, j: int|
        0 <= i < more.len() && 0 <= j < more.len() && i != j implies more[i] != more[j] by {
        if i < views.len() && j < views.len() {
        } else if i < views.len() {
            assert(views.contains(views[i]));
        } else {
            assert(views.contains(views[j]));
        }
    }
    assert forall|i: int| 0 <= i < more.len() implies (#[trigger] more[i]).subset_of(universe)
        && subset_reached(nfa, more[i]) by {
        if i < views.len() {
            assert(more[i] == views[i]);
        }
    }
    assert forall|edge: Edge| #[trigger]
        dfa.edges.contains(edge) <==> covered(done, curr, symbols, edge) && is_move(
            nfa,
            more,
            edge,
        ) by {
        if covered(done, curr, symbols, edge) && is_move(nfa, more, edge) {
            assert(edge.0 < views.len());
            let symbol = edge.1->Symbol_0;
            let target = subset_step(nfa, views[edge.0 as int], symbol);
            assert(more[edge.0 as int] == views[edge.0 as int]);
            assert(views.contains(target));
            if edge.2 == views.len() {
                assert(more[edge.2 as int] == subset);
            } else {
                assert(more[edge.2 as int] == views[edge.2 as int]);
            }
        }
        if dfa.edges.contains(edge) {
            assert(is_move(nfa, views, edge));
            assert(more[edge.0 as int] == views[edge.0 as int]);
            assert(more[edge.2 as int] == views[edge.2 as int]);
        }
    }
    assert forall|state: State| #[trigger]
        dfa.finals.contains(state) <==> (done.contains(state) || state == curr) && state
            < more.len() && !more[state as int].disjoint(nfa.finals) by {
        if done.contains(state) || state == curr {
            assert(more[state as int] == views[state as int]);
        }
    }
    assert forall|state: State, symbol: char|
        done.contains(state) && nfa.alphabet().contains(symbol) implies more.contains(
        #[trigger] subset_step(nfa, more[state as int], symbol),
    ) by {
        assert(more[state as int] == views[state as int]);
        let target = subset_step(nfa, views[state as int], symbol);
        assert(views.contains(target));
        let i = choose|i: int| 0 <= i < views.len() && views[i] == target;
        assert(more[i] == target);
    }
    assert forall|symbol: char| symbols.contains(symbol) implies more.contains(
        #[trigger] subset_step(nfa, more[curr as int], symbol),
    ) by {
        assert(more[curr as int] == views[curr as int]);
        let target = subset_step(nfa, views[curr as int], symbol);
        assert(views.contains(target));
        let i = choose|i: int| 0 <= i < views.len() && views[i] == target;
        assert(more[i] == target);
    }
    views.lemma_push_to_set_commute(subset);
    let rest = subsets_of(universe).difference(views.to_set());
    assert(subsets_of(universe).difference(more.to_set()) =~= rest.remove(subset));
    assert(rest.contains(subset));
}

/// The move from `curr` under one more character keeps what holds of the
/// automaton under construction.
proof fn lemma_move_added(
    nfa: Nfa,
    dfa: Nfa,
    views: Seq<Set<State>>,
    done: Set<State>,
    curr: State,
    symbols: Set<char>,
    symbol: char,
    dest: State,
)
    requires
        explored(nfa, dfa, views, done, curr, symbols, true),
        views.no_duplicates(),
        curr < views.len(),
        dest < views.len(),
        nfa.alphabet().contains(symbol),
        views[dest as int] == subset_step(nfa, views[curr as int], symbol),
    ensures
        explored(
            nfa,
            dfa.add_edge(curr, TransitionType::Symbol(symbol), dest),
            views,
            done,
            curr,
            symbols.insert(symbol),
            true,
        ),
{
    let added = (curr, TransitionType::Symbol(symbol), dest);
    let after = dfa.add_edge(curr, TransitionType::Symbol(symbol), dest);
    let next = symbols.insert(symbol);
    assert(is_move(nfa, views, added));
    assert forall|edge: Edge| #[trigger]
        after.edges.contains(edge) <==> covered(done, curr, next, edge) && is_move(
            nfa,
            views,
            edge,
        ) by {
        if dfa.edges.contains(edge) {
            assert(covered(done, curr, symbols, edge));
        }
        if covered(done, curr, next, edge) && is_move(nfa, views, edge) {
            if covered(done, curr, symbols, edge) {
                assert(dfa.edges.contains(edge));
            } else {
                assert(edge.1 == TransitionType::Symbol(symbol));
                if edge.2 != dest {
                    assert(views[edge.2 as int] != views[dest as int]);
                }
                assert(edge == added);
            }
        }
    }
    assert forall|other: char| next.contains(other) && curr < views.len() implies views.contains(
        #[trigger] subset_step(nfa, views[curr as int], other),
    ) by {
        if other == symbol {
            assert(views[dest as int] == subset_step(nfa, views[curr as int], other));
        }
    }
}

/// Determinizes the automaton by the subset construction. The states of the
/// result are numbered from zero in the order in which their subsets are
/// found.
pub fn subset(automata: Automata) -> (dfa: Automata)
    requires
        automata.wf(),
    ensures
        dfa.wf(),
        exists|subsets: Seq<Set<State>>| #[trigger] subset_construction(automata@, dfa@, subsets),
{
    let alphabet = automata.alphabet();
    let mut first: BTreeSet<State> = BTreeSet::new();
    first.insert(automata.start_state());
    let dest_states = automata.eclosure(first);
    let ghost nfa = automata@;
    let ghost universe = nfa.states().insert(nfa.start);

    let mut work_list: Vec<usize> = Vec::new();
    let mut new_automata = Automata::new(0);
    let mut seen: Vec<BTreeSet<State>> = Vec::new();
    let ghost mut done: Set<State> = Set::empty();
    let ghost mut steps: nat = 0;

    proof {
        automata.lemma_wf_finite();
        lemma_states_finite(nfa);
        lemma_subsets_finite(universe);
        lemma_eclosure_within(nfa, set![nfa.start]);
        assert(first@ =~= set![nfa.start]);
        assert(over(Seq::<char>::empty(), nfa.alphabet()));
        assert(subset_after(nfa, Seq::<char>::empty()) == dest_states@);
    }
    seen.push(dest_states);
    work_list.push(0);
    proof {
        assert(views_of(seen@) =~= seq![subset_after(nfa, Seq::<char>::empty())]);
        assert(work_list@[0] == 0);
        assert(work_list@ =~= seq![0usize]);
        lemma_search_begins(nfa, alphabet@, views_of(seen@), work_list@);
    }

    while work_list.len() > 0
        invariant
            automata.wf(),
            nfa == automata@,
            alphabet@.to_set() == nfa.alphabet(),
            universe == nfa.states().insert(nfa.start),
            subsets_of(universe).finite(),
            new_automata.wf(),
            found(nfa, views_of(seen@), universe),
            explored(nfa, new_automata@, views_of(seen@), done, 0, Set::empty(), false),
            search_after(nfa, alphabet@, steps) == (Search {
                found: views_of(seen@),
                pending: work_list@,
            }),
            forall|j: int| 0 <= j < work_list@.len() ==> (#[trigger] work_list@[j]) < seen@.len(),
            forall|state: State| #[trigger]
                done.contains(state) || state >= seen@.len() || work_list@.contains(state),
        decreases
                2 * subsets_of(universe).difference(views_of(seen@).to_set()).len()
                    + work_list@.len(),
    {
        let ghost work_before = work_list@;
        let ghost bound = 2 * subsets_of(universe).difference(views_of(seen@).to_set()).len()
            + work_list@.len();
        let ghost views_before = views_of(seen@);
        let curr_state = work_list.pop().unwrap();
        let states = seen[curr_state].clone();
        let ghost rest = work_list@;
        proof {
            assert(rest =~= work_before.drop_last());
            lemma_expanded_none(nfa, alphabet@, views_before, states@);
            assert(work_list@ =~= rest + numbers(seen@.len() as int, seen@.len() as int));
            assert(work_before[work_before.len() - 1] == curr_state);
            assert forall|state: State| #[trigger]
                done.contains(state) || state >= seen@.len() || state == curr_state
                    || work_list@.contains(state) by {
                if work_before.contains(state) && state != curr_state {
                    let i = choose|i: int| 0 <= i < work_before.len() && work_before[i] == state;
                    assert(work_list@[i] == state);
                }
            }
            assert(states@ == views_of(seen@)[curr_state as int]);
        }

        if intersects(automata.final_states(), &states) {
            new_automata.add_final_state(curr_state);
        }
        proof {
            assert(explored(
                nfa,
                new_automata@,
                views_of(seen@),
                done,
                curr_state,
                Set::empty(),
                true,
            ));
        }

        let mut k: usize = 0;
        while k < alphabet.len()
            invariant
                k <= alphabet.len(),
                automata.wf(),
                nfa == automata@,
                alphabet@.to_set() == nfa.alphabet(),
                universe == nfa.states().insert(nfa.start),
                subsets_of(universe).finite(),
                new_automata.wf(),
                curr_state < seen@.len(),
                states@ == views_of(seen@)[curr_state as int],
                views_before.len() <= seen@.len(),
                views_of(seen@) == expanded(nfa, alphabet@, views_before, states@, k as nat),
                work_list@ == rest + numbers(views_before.len() as int, seen@.len() as int),
                found(nfa, views_of(seen@), universe),
                explored(
                    nfa,
                    new_automata@,
                    views_of(seen@),
                    done,
                    curr_state,
                    alphabet@.take(k as int).to_set(),
                    true,
                ),
                forall|j: int|
                    0 <= j < work_list@.len() ==> (#[trigger] work_list@[j]) < seen@.len(),
                forall|state: State| #[trigger]
                    done.contains(state) || state >= seen@.len() || state == curr_state
                        || work_list@.contains(state),
                2 * subsets_of(universe).difference(views_of(seen@).to_set()).len()
                    + work_list@.len() < bound,
            decreases alphabet.len() - k,
        {
            let symbol = alphabet[k];
            let ghost views = views_of(seen@);
            let ghost symbols = alphabet@.take(k as int).to_set();
            let ghost work_mid = work_list@;
            let moved = automata.delta(&states, TransitionType::Symbol(symbol));
            let subset = automata.eclosure(moved);
            proof {
                assert(alphabet@.to_set().contains(symbol));
                assert(subset@ == subset_step(nfa, views[curr_state as int], symbol));
                lemma_subset_step_within(nfa, views[curr_state as int], symbol);
                let text = choose|text: Seq<char>|
                    over(text, nfa.alphabet()) && #[trigger] subset_after(nfa, text)
                        == views[curr_state as int];
                let longer = text.push(symbol);
                assert(longer.drop_last() == text);
                assert(subset_after(nfa, longer) == subset@);
                assert(subset_reached(nfa, subset@));
            }
            let dest_state = match find_subset(&seen, &subset) {
                Some(place) => {
                    proof {
                        assert(views[place as int] == subset@);
                        assert(views.contains(subset@));
                    }
                    place
                },
                None => {
                    proof {
                        lemma_found_one_more(
                            nfa,
                            new_automata@,
                            views,
                            universe,
                            done,
                            curr_state,
                            symbols,
                            subset@,
                        );
                    }
                    let place = seen.len();
                    seen.push(subset);
                    work_list.push(place);
                    proof {
                        assert(views_of(seen@) =~= views.push(subset@));
                        assert(work_list@[work_mid.len() as int] == place);
                        assert forall|state: State| #[trigger]
                            done.contains(state) || state >= seen@.len() || state == curr_state
                                || work_list@.contains(state) by {
                            if work_mid.contains(state) {
                                let i = choose|i: int|
                                    0 <= i < work_mid.len() && work_mid[i] == state;
                                assert(work_list@[i] == state);
                            }
                        }
                    }
                    place
                },
            };
            let ghost grown = views_of(seen@);
            let ghost before = new_automata@;
            proof {
                assert(seen@.len() == seen.len());
                lemma_expanded_step(
                    nfa,
                    alphabet@,
                    views_before,
                    states@,
                    k as nat,
                    views,
                    grown,
                    numbers(views_before.len() as int, views.len() as int),
                );
                assert(work_list@ =~= rest + numbers(
                    views_before.len() as int,
                    grown.len() as int,
                ));
            }
            new_automata.add_transition(curr_state, TransitionType::Symbol(symbol), dest_state);
            proof {
                alphabet@.lemma_take_succ_push(k as int);
                alphabet@.take(k as int).lemma_push_to_set_commute(symbol);
                assert(grown[dest_state as int] == subset@);
                assert(grown[curr_state as int] == states@);
                lemma_move_added(nfa, before, grown, done, curr_state, symbols, symbol, dest_state);
            }
            k += 1;
        }
        proof {
            assert(alphabet@.take(alphabet@.len() as int) == alphabet@);
            let views = views_of(seen@);
            let all = alphabet@.to_set();
            let old_done = done;
            done = done.insert(curr_state);
            assert forall|edge: Edge| #[trigger]
                new_automata@.edges.contains(edge) <==> covered(done, 0, Set::empty(), edge)
                    && is_move(nfa, views, edge) by {
                assert(covered(old_done, curr_state, all, edge) && is_move(nfa, views, edge)
                    <==> covered(done, 0, Set::empty(), edge) && is_move(nfa, views, edge));
            }
            assert(explored(nfa, new_automata@, views, done, 0, Set::empty(), false));
            assert(views_before[curr_state as int] == states@);
            lemma_search_steps(
                nfa,
                alphabet@,
                steps,
                Search { found: views_before, pending: work_before },
                Search { found: views, pending: work_list@ },
            );
            steps = steps + 1;
        }
    }
    proof {
        let views = views_of(seen@);
        assert(views.len() == seen.len());
        assert forall|state: State| state < views.len() implies done.contains(state) by {
            if work_list@.contains(state) {
                let i = choose|i: int| 0 <= i < work_list@.len() && work_list@[i] == state;
            }
        }
        assert forall|subset: Set<State>| views.contains(subset) <==> subset_reached(
            nfa,
            subset,
        ) by {
            if views.contains(subset) {
                let i = choose|i: int| 0 <= i < views.len() && views[i] == subset;
            }
            if subset_reached(nfa, subset) {
                let text = choose|text: Seq<char>|
                    over(text, nfa.alphabet()) && #[trigger] subset_after(nfa, text) == subset;
                assert(views.contains(views[0]));
                assert forall|i: int, symbol: char|
                    0 <= i < views.len() && nfa.alphabet().contains(symbol) implies views.contains(
                    #[trigger] subset_step(nfa, views[i], symbol),
                ) by {
                    let state = i as State;
                    assert(done.contains(state));
                    assert(views[state as int] == views[i]);
                }
                lemma_closed_holds_reached(nfa, views, text);
            }
        }
        assert(determinized(nfa, new_automata@, views));
        assert(work_list@ =~= Seq::<State>::empty());
        assert(discovered(nfa, views));
        assert(subset_construction(nfa, new_automata@, views));
    }
    new_automata
}

/// A subset construction has every move.
pub proof fn lemma_move_present(nfa: Nfa, dfa: Nfa, subsets: Seq<Set<State>>, edge: Edge)
    requires
        determinized(nfa, dfa, subsets),
        is_move(nfa, subsets, edge),
    ensures
        dfa.edges.contains(edge),
{
}

/// In a subset construction, the state that stands for the subset reached
/// by reading `text` is reached from the start by as many edges as `text`
/// has characters.
pub proof fn lemma_determinized_run(
    nfa: Nfa,
    dfa: Nfa,
    subsets: Seq<Set<State>>,
    text: Seq<char>,
) -> (state: State)
    requires
        determinized(nfa, dfa, subsets),
        over(text, nfa.alphabet()),
    ensures
        state < subsets.len(),
        subsets[state as int] == subset_after(nfa, text),
        reached_in(dfa, state, text.len()),
    decreases text.len(),
{
    if text.len() == 0 {
        assert(text =~= Seq::<char>::empty());
        0
    } else {
        let shorter = text.drop_last();
        assert forall|i: int| 0 <= i < shorter.len() implies nfa.alphabet().contains(
            #[trigger] shorter[i],
        ) by {
            assert(shorter[i] == text[i]);
        }
        let prev = lemma_determinized_run(nfa, dfa, subsets, shorter);
        let target = subset_after(nfa, text);
        assert(subset_reached(nfa, target));
        assert(subsets.contains(target));
        let place = choose|place: int| 0 <= place < subsets.len() && subsets[place] == target;
        let state = place as State;
        let symbol = text.last();
        assert(nfa.alphabet().contains(text[text.len() - 1]));
        let edge = (prev, TransitionType::Symbol(symbol), state);
        lemma_move_present(nfa, dfa, subsets, edge);
        assert(reached_in(dfa, prev, (text.len() - 1) as nat));
        state
    }
}

/// Every state of a subset construction is reached from its start along
/// edges that each read a character.
pub proof fn lemma_determinized_reached(
    nfa: Nfa,
    dfa: Nfa,
    subsets: Seq<Set<State>>,
    state: State,
)
    requires
        determinized(nfa, dfa, subsets),
        state < subsets.len(),
    ensures
        reached(dfa, state),
{
    let subset = subsets[state as int];
    assert(subsets.contains(subset));
    let text = choose|text: Seq<char>|
        over(text, nfa.alphabet()) && #[trigger] subset_after(nfa, text) == subset;
    let found = lemma_determinized_run(nfa, dfa, subsets, text);
    if found != state {
        assert(subsets[found as int] != subsets[state as int]);
    }
}

/// A subset construction is deterministic, its states are the numbers of
/// its subsets, and pruning it changes nothing.
pub proof fn lemma_determinized_shape(nfa: Nfa, dfa: Nfa, subsets: Seq<Set<State>>)
    requires
        determinized(nfa, dfa, subsets),
    ensures
        crate::automata::deterministic(dfa),
        forall|state: State| #[trigger] dfa.states().contains(state) ==> state < subsets.len(),
        forall|state: State| #[trigger] dfa.finals.contains(state) ==> state < subsets.len(),
        pruned(dfa) == dfa,
{
    assert forall|first: Edge, second: Edge|
        #[trigger] dfa.edges.contains(first) && #[trigger] dfa.edges.contains(second) && first.0
            == second.0 && first.1 == second.1 implies first.2 == second.2 by {
        assert(is_move(nfa, subsets, first));
        assert(is_move(nfa, subsets, second));
        if first.2 != second.2 {
            assert(subsets[first.2 as int] != subsets[second.2 as int]);
        }
    }
    assert forall|state: State| #[trigger] dfa.states().contains(state) implies state
        < subsets.len() by {
        if dfa.edge_ends().contains(state) {
            let edge = choose|edge: Edge| #[trigger]
                dfa.edges.contains(edge) && (edge.0 == state || edge.2 == state);
            assert(is_move(nfa, subsets, edge));
        }
    }
    assert forall|edge: Edge| dfa.edges.contains(edge) implies reached(dfa, edge.0) by {
        assert(is_move(nfa, subsets, edge));
        lemma_determinized_reached(nfa, dfa, subsets, edge.0);
    }
    assert(pruned(dfa).edges =~= dfa.edges);
    assert(pruned(dfa) =~= dfa);
}

/// Whether `dfa` is the subset construction of the reversed and pruned
/// `first`, which is the subset construction of the reversed `nfa`.
pub open spec fn minimized_through(
    nfa: Nfa,
    first: Nfa,
    firsts: Seq<Set<State>>,
    dfa: Nfa,
    seconds: Seq<Set<State>>,
) -> bool {
    subset_construction(reversed(nfa), first, firsts) && subset_construction(
        reversed(pruned(first)),
        dfa,
        seconds,
    )
}

/// Whether `dfa` is what reversing, determinizing and pruning `nfa` twice
/// over gives: the subset construction of the reversed subset construction
/// of the reversed `nfa`.
pub open spec fn minimized(nfa: Nfa, dfa: DfaModel) -> bool {
    exists|first: Nfa, firsts: Seq<Set<State>>, seconds: Seq<Set<State>>| #[trigger]
        minimized_through(nfa, first, firsts, dfa.as_nfa(), seconds)
}

impl Automata {
    /// Compiles a syntax tree into a minimal deterministic automaton.
    ///
    /// Every state of the result is reached from its start state along
    /// edges that each read a character.
    pub fn from_regex_expr(expr: RegexAST) -> (dfa: Dfa)
        requires
            well_formed(expr),
            state_count(expr) <= usize::MAX,
        ensures
            dfa.wf(),
            minimized(built(expr, 0), dfa@),
            reached_throughout(dfa@.as_nfa()),
            forall|text: Seq<char>| #[trigger] dfa@.accepts(text) <==> tree_matches(expr, text),
    {
        let mut counter: State = 0;
        proof {
            assert forall|text: Seq<char>|
                accepts(built(expr, 0), text) <==> #[trigger] tree_matches(expr, text) by {
                lemma_built_accepts(expr, 0, text);
            }
        }
        let automata = build_automata_from_ast(expr, &mut counter);
        proof {
            assert forall|state: State| #[trigger]
                automata@.states().contains(state) implies state < usize::MAX by {
                if automata@.edge_ends().contains(state) {
                    let edge = choose|edge: Edge| #[trigger]
                        automata@.edges.contains(edge) && (edge.0 == state || edge.2 == state);
                }
            }
        }
        automata.convert_to_dfa()
    }

    /// Produce a minimized deterministic automaton by reversing and
    /// determinizing twice.
    pub fn convert_to_dfa(self) -> (dfa: Dfa)
        requires
            self.wf(),
            forall|state: State| #[trigger] self@.states().contains(state) ==> state < usize::MAX,
        ensures
            dfa.wf(),
            minimized(self@, dfa@),
            reached_throughout(dfa@.as_nfa()),
            forall|text: Seq<char>| #[trigger] dfa@.accepts(text) <==> accepts(self@, text),
    {
        let ghost nfa = self@;
        let first = subset(reverse(self));
        let ghost firsts = choose|firsts: Seq<Set<State>>| #[trigger]
            subset_construction(reversed(nfa), first@, firsts);
        proof {
            lemma_determinized_shape(reversed(nfa), first@, firsts);
        }
        let first = reachable(first);
        let ghost middle = first@;
        let second = subset(reverse(first));
        let ghost seconds = choose|seconds: Seq<Set<State>>| #[trigger]
            subset_construction(reversed(middle), second@, seconds);
        proof {
            lemma_determinized_shape(reversed(middle), second@, seconds);
        }
        let second = reachable(second);
        let dfa = Dfa::lower(&second);
        proof {
            assert(minimized_through(nfa, middle, firsts, dfa@.as_nfa(), seconds));
            let model = dfa@.as_nfa();
            assert forall|state: State| #[trigger]
                model.finals.contains(state) implies reached(model, state) by {
                lemma_determinized_reached(reversed(middle), model, seconds, state);
            }
            assert forall|edge: Edge| #[trigger] model.edges.contains(edge) implies reached(
                model,
                edge.0,
            ) && reached(model, edge.2) by {
                assert(is_move(reversed(middle), seconds, edge));
                lemma_determinized_reached(reversed(middle), model, seconds, edge.0);
                lemma_determinized_reached(reversed(middle), model, seconds, edge.2);
            }
            assert(reached_in(model, model.start, 0));
            lemma_top_exists(nfa);
            assert forall|text: Seq<char>| #[trigger]
                dfa@.accepts(text) <==> accepts(nfa, text) by {
                lemma_minimized_accepts(nfa, dfa@, text);
            }
        }
        dfa
    }
}

/// Whether the start reaches the start, every final state and both ends of
/// every edge along edges that each read a character.
pub open spec fn reached_throughout(nfa: Nfa) -> bool {
    &&& reached(nfa, nfa.start)
    &&& (forall|state: State| #[trigger] nfa.finals.contains(state) ==> reached(nfa, state))
    &&& (forall|edge: Edge| #[trigger]
        nfa.edges.contains(edge) ==> reached(nfa, edge.0) && reached(nfa, edge.2))
}

} // verus!

//! Automata that differ only in the numbers of their states.

use crate::automata::{
    increasing, lemma_char_code, lemma_edge_states, DfaModel, Edge, Nfa, State, TransitionType,
};
use crate::minimize::{
    determinized, discovered, is_move, lemma_determinized_shape, lemma_move_present, lemma_top_state,
    minimized, minimized_through, over, pruned, reversed, subset_after, subset_reached,
    search_after, search_step, subset_step, top_state, Search,
};
use crate::order::{ascending, key_lt, lemma_ascending_unique, Key};
use vstd::prelude::*;

verus! {

/// Whether no two states have the same name.
pub open spec fn one_to_one(names: spec_fn(State) -> State) -> bool {
    forall|first: State, second: State|
        #[trigger] names(first) == #[trigger] names(second) ==> first == second
}

/// An edge between the names of its states.
pub open spec fn renamed_edge(edge: Edge, names: spec_fn(State) -> State) -> Edge {
    (names(edge.0), edge.1, names(edge.2))
}

/// The automaton with every state replaced by its name.
pub open spec fn renamed(nfa: Nfa, names: spec_fn(State) -> State) -> Nfa {
    Nfa {
        start: names(nfa.start),
        finals: nfa.finals.map(names),
        edges: nfa.edges.map(|edge: Edge| renamed_edge(edge, names)),
    }
}

/// Whether the second automaton is the first with its states renamed, no two
/// alike.
pub open spec fn same_shape(first: Nfa, second: Nfa) -> bool {
    exists|names: spec_fn(State) -> State|
        one_to_one(names) && #[trigger] renamed(first, names) == second
}

/// The place in `seconds` of the subset that stands at `state` in `firsts`;
/// a number that is no place in `firsts` stands for itself.
pub open spec fn place_in(
    firsts: Seq<Set<State>>,
    seconds: Seq<Set<State>>,
    state: State,
) -> State {
    if state < firsts.len() {
        seconds.index_of(firsts[state as int]) as State
    } else {
        state
    }
}

/// Two subset constructions of one automaton have the same subsets, in
/// whatever order.
pub proof fn lemma_same_subsets(
    nfa: Nfa,
    first: Nfa,
    firsts: Seq<Set<State>>,
    second: Nfa,
    seconds: Seq<Set<State>>,
)
    requires
        determinized(nfa, first, firsts),
        determinized(nfa, second, seconds),
    ensures
        firsts.len() == seconds.len(),
        forall|state: State|
            state < firsts.len() ==> (#[trigger] place_in(firsts, seconds, state)) < seconds.len()
                && seconds[place_in(firsts, seconds, state) as int] == firsts[state as int],
        place_in(firsts, seconds, 0) == 0,
        one_to_one(|state: State| place_in(firsts, seconds, state)),
{
    assert(firsts.to_set() =~= seconds.to_set()) by {
        assert forall|subset: Set<State>| firsts.to_set().contains(subset)
            <==> seconds.to_set().contains(subset) by {
            assert(firsts.contains(subset) <==> subset_reached(nfa, subset));
            assert(seconds.contains(subset) <==> subset_reached(nfa, subset));
        }
    }
    firsts.unique_seq_to_set();
    seconds.unique_seq_to_set();
    assert forall|state: State| state < firsts.len() implies (#[trigger] place_in(
        firsts,
        seconds,
        state,
    )) < seconds.len() && seconds[place_in(firsts, seconds, state) as int]
        == firsts[state as int] by {
        let subset = firsts[state as int];
        assert(firsts.contains(subset));
        assert(subset_reached(nfa, subset));
        assert(seconds.contains(subset));
        let place = seconds.index_of(subset);
        assert(0 <= place < seconds.len() && seconds[place] == subset);
    }
    assert(seconds[0] == firsts[0]);
    if place_in(firsts, seconds, 0) != 0 {
        assert(seconds[place_in(firsts, seconds, 0) as int] != seconds[0]);
    }
    let names = |state: State| place_in(firsts, seconds, state);
    assert forall|a: State, b: State| #[trigger] names(a) == #[trigger] names(b) implies a
        == b by {
        if a < firsts.len() && b < firsts.len() {
            assert(seconds[place_in(firsts, seconds, a) as int] == firsts[a as int]);
            assert(seconds[place_in(firsts, seconds, b) as int] == firsts[b as int]);
            if a != b {
                assert(firsts[a as int] != firsts[b as int]);
            }
        } else if a < firsts.len() {
            assert(place_in(firsts, seconds, a) < seconds.len());
        } else if b < firsts.len() {
            assert(place_in(firsts, seconds, b) < seconds.len());
        }
    }
}

/// Two subset constructions of one automaton differ only in the numbers of
/// their states.
pub proof fn lemma_determinized_same_shape(
    nfa: Nfa,
    first: Nfa,
    firsts: Seq<Set<State>>,
    second: Nfa,
    seconds: Seq<Set<State>>,
)
    requires
        determinized(nfa, first, firsts),
        determinized(nfa, second, seconds),
    ensures
        renamed(first, |state: State| place_in(firsts, seconds, state)) == second,
{
    let names = |state: State| place_in(firsts, seconds, state);
    lemma_same_subsets(nfa, first, firsts, second, seconds);
    lemma_same_subsets(nfa, second, seconds, first, firsts);
    let image = renamed(first, names);
    assert forall|state: State| image.finals.contains(state) <==> second.finals.contains(
        state,
    ) by {
        if image.finals.contains(state) {
            let origin = choose|origin: State|
                first.finals.contains(origin) && state == names(origin);
            assert(place_in(firsts, seconds, origin) == state);
        }
        if second.finals.contains(state) {
            let origin = place_in(seconds, firsts, state);
            assert(firsts[origin as int] == seconds[state as int]);
            assert(first.finals.contains(origin));
            let back = place_in(firsts, seconds, origin);
            if back != state {
                assert(seconds[back as int] != seconds[state as int]);
            }
            assert(names(origin) == state);
        }
    }
    assert forall|edge: Edge| image.edges.contains(edge) <==> second.edges.contains(edge) by {
        if image.edges.contains(edge) {
            let origin = choose|origin: Edge|
                first.edges.contains(origin) && edge == renamed_edge(origin, names);
            assert(is_move(nfa, firsts, origin));
            assert(place_in(firsts, seconds, origin.0) == edge.0);
            assert(place_in(firsts, seconds, origin.2) == edge.2);
            assert(is_move(nfa, seconds, edge));
            lemma_move_present(nfa, second, seconds, edge);
        }
        if second.edges.contains(edge) {
            assert(is_move(nfa, seconds, edge));
            let from = place_in(seconds, firsts, edge.0);
            let to = place_in(seconds, firsts, edge.2);
            let origin = (from, edge.1, to);
            assert(firsts[from as int] == seconds[edge.0 as int]);
            assert(firsts[to as int] == seconds[edge.2 as int]);
            assert(is_move(nfa, firsts, origin));
            lemma_move_present(nfa, first, firsts, origin);
            let back_from = place_in(firsts, seconds, from);
            let back_to = place_in(firsts, seconds, to);
            if back_from != edge.0 {
                assert(seconds[back_from as int] != seconds[edge.0 as int]);
            }
            if back_to != edge.2 {
                assert(seconds[back_to as int] != seconds[edge.2 as int]);
            }
            assert(edge == renamed_edge(origin, names));
        }
    }
    assert(image =~= second);
}

/// The greatest state of a subset construction is the number of its last
/// subset.
pub proof fn lemma_determinized_top(nfa: Nfa, dfa: Nfa, subsets: Seq<Set<State>>)
    requires
        determinized(nfa, dfa, subsets),
    ensures
        top_state(dfa) == subsets.len() - 1,
{
    lemma_determinized_shape(nfa, dfa, subsets);
    let last = (subsets.len() - 1) as State;
    if nfa.alphabet() =~= Set::<char>::empty() {
        if subsets.len() > 1 {
            assert(subsets.contains(subsets[1]));
            let text = choose|text: Seq<char>|
                over(text, nfa.alphabet()) && #[trigger] subset_after(nfa, text) == subsets[1];
            if text.len() > 0 {
                assert(nfa.alphabet().contains(text[0]));
            }
            assert(text =~= Seq::<char>::empty());
            assert(subsets[1] != subsets[0]);
        }
        assert(dfa.states().contains(dfa.start));
        lemma_top_state(dfa, 0);
    } else {
        let symbol = choose|symbol: char| nfa.alphabet().contains(symbol);
        lemma_char_code(symbol);
        assert(subsets.contains(subsets[last as int]));
        let text = choose|text: Seq<char>|
            over(text, nfa.alphabet()) && #[trigger] subset_after(nfa, text)
                == subsets[last as int];
        let longer = text.push(symbol);
        assert(longer.drop_last() =~= text);
        assert(longer.last() == symbol);
        assert(over(longer, nfa.alphabet()));
        let target = subset_after(nfa, longer);
        assert(subset_reached(nfa, target));
        assert(subsets.contains(target));
        let place = choose|place: int| 0 <= place < subsets.len() && subsets[place] == target;
        let edge = (last, TransitionType::Symbol(symbol), place as State);
        assert(is_move(nfa, subsets, edge));
        lemma_move_present(nfa, dfa, subsets, edge);
        lemma_edge_states(dfa, edge);
        lemma_top_state(dfa, last);
    }
}

/// Reversing and renaming may change places, as long as the new start of
/// the one is the name of the new start of the other.
pub proof fn lemma_reversed_renamed(nfa: Nfa, names: spec_fn(State) -> State)
    requires
        one_to_one(names),
        (top_state(renamed(nfa, names)) + 1) as State == names((top_state(nfa) + 1) as State),
    ensures
        reversed(renamed(nfa, names)) == renamed(reversed(nfa), names),
{
    let image = renamed(nfa, names);
    let left = reversed(image);
    let right = renamed(reversed(nfa), names);
    let turned = reversed(nfa);
    assert(left.finals =~= right.finals) by {
        assert(turned.finals.contains(nfa.start));
        assert forall|state: State| left.finals.contains(state) <==> right.finals.contains(
            state,
        ) by {
            if right.finals.contains(state) {
                let origin = choose|origin: State|
                    turned.finals.contains(origin) && state == names(origin);
            }
        }
    }
    assert forall|edge: Edge| left.edges.contains(edge) <==> right.edges.contains(edge) by {
        let back = (edge.2, edge.1, edge.0);
        if left.edges.contains(edge) {
            if image.edges.contains(back) {
                let origin = choose|origin: Edge|
                    nfa.edges.contains(origin) && back == renamed_edge(origin, names);
                let flipped = (origin.2, origin.1, origin.0);
                assert(turned.edges.contains(flipped));
                assert(edge == renamed_edge(flipped, names));
            } else {
                let last = choose|last: State| nfa.finals.contains(last) && edge.2 == names(last);
                let fan = (turned.start, TransitionType::Epsilon, last);
                assert(turned.edges.contains(fan));
                assert(edge == renamed_edge(fan, names));
            }
        }
        if right.edges.contains(edge) {
            let origin = choose|origin: Edge|
                turned.edges.contains(origin) && edge == renamed_edge(origin, names);
            let flipped = (origin.2, origin.1, origin.0);
            if nfa.edges.contains(flipped) {
                assert(back == renamed_edge(flipped, names));
                assert(image.edges.contains(back));
            } else {
                assert(nfa.finals.contains(origin.2));
                assert(image.finals.contains(edge.2));
            }
        }
    }
    assert(left =~= right);
}

/// The states whose names are in the set.
pub open spec fn named_in(set: Set<State>, names: spec_fn(State) -> State) -> Set<State> {
    Set::new(|state: State| set.contains(names(state)))
}

/// The states whose names are in the subsets.
pub open spec fn all_named_in(
    subsets: Seq<Set<State>>,
    names: spec_fn(State) -> State,
) -> Seq<Set<State>> {
    Seq::new(subsets.len(), |i: int| named_in(subsets[i], names))
}

/// The states whose names are the names of a set are the set.
pub proof fn lemma_named_in_names(set: Set<State>, names: spec_fn(State) -> State)
    requires
        one_to_one(names),
    ensures
        named_in(set.map(names), names) == set,
{
    assert forall|state: State| named_in(set.map(names), names).contains(state) <==> set.contains(
        state,
    ) by {
        if set.map(names).contains(names(state)) {
            let origin = choose|origin: State|
                set.contains(origin) && names(state) == names(origin);
        }
        if set.contains(state) {
            assert(set.map(names).contains(names(state)));
        }
    }
    assert(named_in(set.map(names), names) =~= set);
}

/// Epsilon edges lead between names as they lead between states.
pub proof fn lemma_renamed_eps_reach(
    nfa: Nfa,
    names: spec_fn(State) -> State,
    from: State,
    to: State,
    steps: nat,
)
    requires
        nfa.eps_reach_in(from, to, steps),
    ensures
        renamed(nfa, names).eps_reach_in(names(from), names(to), steps),
    decreases steps,
{
    if steps > 0 {
        let mid = choose|mid: State|
            nfa.eps_reach_in(from, mid, (steps - 1) as nat) && nfa.edges.contains(
                (mid, TransitionType::Epsilon, to),
            );
        lemma_renamed_eps_reach(nfa, names, from, mid, (steps - 1) as nat);
        let edge = (mid, TransitionType::Epsilon, to);
        assert(renamed(nfa, names).edges.contains(renamed_edge(edge, names)));
    }
}

/// What epsilon edges lead to from a name is the name of a state that they
/// lead to from the state.
pub proof fn lemma_renamed_eps_reach_back(
    nfa: Nfa,
    names: spec_fn(State) -> State,
    from: State,
    end: State,
    steps: nat,
) -> (to: State)
    requires
        one_to_one(names),
        renamed(nfa, names).eps_reach_in(names(from), end, steps),
    ensures
        end == names(to),
        nfa.eps_reach_in(from, to, steps),
    decreases steps,
{
    let image = renamed(nfa, names);
    if steps == 0 {
        from
    } else {
        let mid = choose|mid: State|
            image.eps_reach_in(names(from), mid, (steps - 1) as nat) && image.edges.contains(
                (mid, TransitionType::Epsilon, end),
            );
        let before = lemma_renamed_eps_reach_back(nfa, names, from, mid, (steps - 1) as nat);
        let origin = choose|origin: Edge|
            nfa.edges.contains(origin) && (mid, TransitionType::Epsilon, end) == renamed_edge(
                origin,
                names,
            );
        assert(origin.0 == before);
        assert(nfa.edges.contains((before, TransitionType::Epsilon, origin.2)));
        origin.2
    }
}

/// The epsilon closure of the names of a set is the names of its epsilon
/// closure.
pub proof fn lemma_renamed_eclosure(nfa: Nfa, names: spec_fn(State) -> State, set: Set<State>)
    requires
        one_to_one(names),
    ensures
        renamed(nfa, names).eclosure(set.map(names)) == nfa.eclosure(set).map(names),
{
    let image = renamed(nfa, names);
    let left = image.eclosure(set.map(names));
    let right = nfa.eclosure(set).map(names);
    assert forall|end: State| left.contains(end) <==> right.contains(end) by {
        if left.contains(end) {
            let begin = choose|begin: State|
                set.map(names).contains(begin) && image.eps_reach(begin, end);
            let from = choose|from: State| set.contains(from) && begin == names(from);
            let steps = choose|steps: nat| image.eps_reach_in(begin, end, steps);
            let to = lemma_renamed_eps_reach_back(nfa, names, from, end, steps);
            assert(nfa.eps_reach(from, to));
            assert(nfa.eclosure(set).contains(to));
        }
        if right.contains(end) {
            let to = choose|to: State| nfa.eclosure(set).contains(to) && end == names(to);
            let from = choose|from: State| set.contains(from) && nfa.eps_reach(from, to);
            let steps = choose|steps: nat| nfa.eps_reach_in(from, to, steps);
            lemma_renamed_eps_reach(nfa, names, from, to, steps);
            assert(set.map(names).contains(names(from)));
            assert(image.eps_reach(names(from), end));
        }
    }
    assert(left =~= right);
}

/// One step from the names of a set leads to the names of what one step
/// leads to from the set.
pub proof fn lemma_renamed_delta(
    nfa: Nfa,
    names: spec_fn(State) -> State,
    set: Set<State>,
    label: TransitionType,
)
    requires
        one_to_one(names),
    ensures
        renamed(nfa, names).delta(set.map(names), label) == nfa.delta(set, label).map(names),
{
    let image = renamed(nfa, names);
    let left = image.delta(set.map(names), label);
    let right = nfa.delta(set, label).map(names);
    assert forall|end: State| left.contains(end) <==> right.contains(end) by {
        if left.contains(end) {
            let begin = choose|begin: State|
                set.map(names).contains(begin) && image.edges.contains((begin, label, end));
            let from = choose|from: State| set.contains(from) && begin == names(from);
            let origin = choose|origin: Edge|
                nfa.edges.contains(origin) && (begin, label, end) == renamed_edge(origin, names);
            assert(origin.0 == from);
            assert(nfa.edges.contains((from, label, origin.2)));
            assert(nfa.delta(set, label).contains(origin.2));
        }
        if right.contains(end) {
            let to = choose|to: State| nfa.delta(set, label).contains(to) && end == names(to);
            let from = choose|from: State|
                set.contains(from) && nfa.edges.contains((from, label, to));
            assert(image.edges.contains(renamed_edge((from, label, to), names)));
            assert(set.map(names).contains(names(from)));
        }
    }
    assert(left =~= right);
}

/// Renaming keeps the alphabet.
pub proof fn lemma_renamed_alphabet(nfa: Nfa, names: spec_fn(State) -> State)
    ensures
        renamed(nfa, names).alphabet() == nfa.alphabet(),
{
    let image = renamed(nfa, names);
    assert forall|symbol: char| image.alphabet().contains(symbol) <==> nfa.alphabet().contains(
        symbol,
    ) by {
        lemma_char_code(symbol);
        if image.alphabet().contains(symbol) {
            let (from, to) = choose|from: State, to: State|
                image.edges.contains((from, TransitionType::Symbol(symbol), to));
            let origin = choose|origin: Edge|
                nfa.edges.contains(origin) && (from, TransitionType::Symbol(symbol), to)
                    == renamed_edge(origin, names);
            assert(nfa.edges.contains((origin.0, TransitionType::Symbol(symbol), origin.2)));
        }
        if nfa.alphabet().contains(symbol) {
            let (from, to) = choose|from: State, to: State|
                nfa.edges.contains((from, TransitionType::Symbol(symbol), to));
            let edge = (from, TransitionType::Symbol(symbol), to);
            assert(image.edges.contains(renamed_edge(edge, names)));
            assert(image.edges.contains((names(from), TransitionType::Symbol(symbol), names(to))));
        }
    }
    assert(image.alphabet() =~= nfa.alphabet());
}

/// After a step, the renamed automaton is in the names of the states that
/// the automaton is in.
pub proof fn lemma_renamed_subset_step(
    nfa: Nfa,
    names: spec_fn(State) -> State,
    set: Set<State>,
    symbol: char,
)
    requires
        one_to_one(names),
    ensures
        subset_step(renamed(nfa, names), set.map(names), symbol) == subset_step(
            nfa,
            set,
            symbol,
        ).map(names),
{
    let label = TransitionType::Symbol(symbol);
    lemma_renamed_delta(nfa, names, set, label);
    lemma_renamed_eclosure(nfa, names, nfa.delta(set, label));
}

/// After a text, the renamed automaton is in the names of the states that
/// the automaton is in.
pub proof fn lemma_renamed_subset_after(nfa: Nfa, names: spec_fn(State) -> State, text: Seq<char>)
    requires
        one_to_one(names),
    ensures
        subset_after(renamed(nfa, names), text) == subset_after(nfa, text).map(names),
    decreases text.len(),
{
    if text.len() == 0 {
        let only = set![nfa.start];
        assert forall|state: State| only.map(names).contains(state) <==> set![names(
            nfa.start,
        )].contains(state) by {
            if only.map(names).contains(state) {
                let origin = choose|origin: State| only.contains(origin) && state == names(origin);
            }
            if state == names(nfa.start) {
                assert(only.contains(nfa.start));
            }
        }
        assert(only.map(names) =~= set![names(nfa.start)]);
        lemma_renamed_eclosure(nfa, names, set![nfa.start]);
    } else {
        lemma_renamed_subset_after(nfa, names, text.drop_last());
        lemma_renamed_subset_step(nfa, names, subset_after(nfa, text.drop_last()), text.last());
    }
}

/// A subset construction of a renamed automaton is one of the automaton
/// itself: a state stands for the states whose names are in its subset.
pub proof fn lemma_determinized_renamed(
    nfa: Nfa,
    names: spec_fn(State) -> State,
    dfa: Nfa,
    subsets: Seq<Set<State>>,
)
    requires
        one_to_one(names),
        determinized(renamed(nfa, names), dfa, subsets),
    ensures
        determinized(nfa, dfa, all_named_in(subsets, names)),
{
    let image = renamed(nfa, names);
    let pulled = all_named_in(subsets, names);
    lemma_renamed_alphabet(nfa, names);
    assert forall|i: int| 0 <= i < subsets.len() implies subset_reached(nfa, #[trigger] pulled[i])
        && subsets[i] == pulled[i].map(names) by {
        assert(subsets.contains(subsets[i]));
        let text = choose|text: Seq<char>|
            over(text, image.alphabet()) && #[trigger] subset_after(image, text) == subsets[i];
        lemma_renamed_subset_after(nfa, names, text);
        lemma_named_in_names(subset_after(nfa, text), names);
        assert(pulled[i] == subset_after(nfa, text));
    }
    assert forall|i: int, j: int| 0 <= i < pulled.len() && 0 <= j < pulled.len() && i
        != j implies pulled[i] != pulled[j] by {
        assert(subsets[i] == pulled[i].map(names));
        assert(subsets[j] == pulled[j].map(names));
    }
    let nothing = Seq::<char>::empty();
    lemma_renamed_subset_after(nfa, names, nothing);
    lemma_named_in_names(subset_after(nfa, nothing), names);
    assert(pulled[0] == subset_after(nfa, nothing));
    assert forall|subset: Set<State>|
        #![trigger pulled.contains(subset)]
        #![trigger subset_reached(nfa, subset)]
        pulled.contains(subset) <==> subset_reached(nfa, subset) by {
        if pulled.contains(subset) {
            let i = choose|i: int| 0 <= i < pulled.len() && pulled[i] == subset;
            assert(subset_reached(nfa, pulled[i]));
        }
        if subset_reached(nfa, subset) {
            let text = choose|text: Seq<char>|
                over(text, nfa.alphabet()) && #[trigger] subset_after(nfa, text) == subset;
            lemma_renamed_subset_after(nfa, names, text);
            let target = subset_after(image, text);
            assert(subset_reached(image, target));
            assert(subsets.contains(target));
            let i = choose|i: int| 0 <= i < subsets.len() && subsets[i] == target;
            lemma_named_in_names(subset, names);
            assert(pulled[i] == subset);
        }
    }
    assert forall|state: State| #[trigger]
        dfa.finals.contains(state) <==> state < pulled.len() && !pulled[state as int].disjoint(
            nfa.finals,
        ) by {
        if state < subsets.len() {
            let subset = subsets[state as int];
            if !subset.disjoint(image.finals) {
                let end = choose|end: State| subset.contains(end) && image.finals.contains(end);
                let last = choose|last: State| nfa.finals.contains(last) && end == names(last);
                assert(pulled[state as int].contains(last));
            }
            if !pulled[state as int].disjoint(nfa.finals) {
                let last = choose|last: State|
                    pulled[state as int].contains(last) && nfa.finals.contains(last);
                assert(image.finals.contains(names(last)));
                assert(subset.contains(names(last)));
            }
        }
    }
    assert forall|edge: Edge|
        #![trigger dfa.edges.contains(edge)]
        #![trigger is_move(nfa, pulled, edge)]
        dfa.edges.contains(edge) <==> is_move(nfa, pulled, edge) by {
        if edge.0 < subsets.len() && edge.2 < subsets.len() {
            if let TransitionType::Symbol(symbol) = edge.1 {
                lemma_char_code(symbol);
                let from = pulled[edge.0 as int];
                let to = pulled[edge.2 as int];
                assert(subsets[edge.0 as int] == from.map(names));
                assert(subsets[edge.2 as int] == to.map(names));
                lemma_renamed_subset_step(nfa, names, from, symbol);
                let stepped = subset_step(nfa, from, symbol);
                lemma_named_in_names(stepped, names);
                lemma_named_in_names(to, names);
                if is_move(image, subsets, edge) {
                    assert(to.map(names) == stepped.map(names));
                    assert(to == stepped);
                }
            }
        }
        assert(dfa.edges.contains(edge) <==> is_move(image, subsets, edge));
    }
}

/// Two minimized automata of one automaton differ only in the numbers of
/// their states.
pub proof fn law_minimized_same_shape(nfa: Nfa, first: DfaModel, second: DfaModel)
    requires
        minimized(nfa, first),
        minimized(nfa, second),
    ensures
        same_shape(first.as_nfa(), second.as_nfa()),
{
    let turned = reversed(nfa);
    let (a1, s1, t1) = choose|a: Nfa, s: Seq<Set<State>>, t: Seq<Set<State>>| #[trigger]
        minimized_through(nfa, a, s, first.as_nfa(), t);
    let (a2, s2, t2) = choose|a: Nfa, s: Seq<Set<State>>, t: Seq<Set<State>>| #[trigger]
        minimized_through(nfa, a, s, second.as_nfa(), t);
    lemma_determinized_shape(turned, a1, s1);
    lemma_determinized_shape(turned, a2, s2);
    let names = |state: State| place_in(s1, s2, state);
    lemma_same_subsets(turned, a1, s1, a2, s2);
    lemma_determinized_same_shape(turned, a1, s1, a2, s2);
    lemma_determinized_top(turned, a1, s1);
    lemma_determinized_top(turned, a2, s2);
    assert(names(s1.len() as State) == s1.len());
    lemma_reversed_renamed(a1, names);
    lemma_determinized_renamed(reversed(a1), names, second.as_nfa(), t2);
    let pulled = all_named_in(t2, names);
    let again = |state: State| place_in(t1, pulled, state);
    lemma_same_subsets(reversed(a1), first.as_nfa(), t1, second.as_nfa(), pulled);
    lemma_determinized_same_shape(reversed(a1), first.as_nfa(), t1, second.as_nfa(), pulled);
    assert(one_to_one(again) && renamed(first.as_nfa(), again) == second.as_nfa());
}

/// The keys that stand for characters in a list.
pub open spec fn symbol_keys(symbols: Seq<char>) -> Seq<Key> {
    Seq::new(symbols.len(), |i: int| (0usize, symbols[i] as u32, 0usize))
}

/// Two lists of the same characters in the order of their code points are
/// the same list.
pub proof fn lemma_increasing_unique(first: Seq<char>, second: Seq<char>)
    requires
        increasing(first),
        increasing(second),
        first.to_set() == second.to_set(),
    ensures
        first == second,
{
    let a = symbol_keys(first);
    let b = symbol_keys(second);
    assert forall|key: Key| a.to_set().contains(key) <==> b.to_set().contains(key) by {
        if a.contains(key) {
            let i = choose|i: int| 0 <= i < a.len() && a[i] == key;
            assert(first.to_set().contains(first[i]));
            assert(second.contains(first[i]));
            let j = choose|j: int| 0 <= j < second.len() && second[j] == first[i];
            assert(b[j] == key);
        }
        if b.contains(key) {
            let i = choose|i: int| 0 <= i < b.len() && b[i] == key;
            assert(second.to_set().contains(second[i]));
            assert(first.contains(second[i]));
            let j = choose|j: int| 0 <= j < first.len() && first[j] == second[i];
            assert(a[j] == key);
        }
    }
    assert(a.to_set() =~= b.to_set());
    assert(ascending(a)) by {
        assert forall|i: int, j: int| 0 <= i < j < a.len() implies key_lt(
            #[trigger] a[i],
            #[trigger] a[j],
        ) by {
            assert((first[i] as u32) < (first[j] as u32));
        }
    }
    assert(ascending(b)) by {
        assert forall|i: int, j: int| 0 <= i < j < b.len() implies key_lt(
            #[trigger] b[i],
            #[trigger] b[j],
        ) by {
            assert((second[i] as u32) < (second[j] as u32));
        }
    }
    lemma_ascending_unique(a, b);
    assert forall|i: int| 0 <= i < first.len() implies first[i] == second[i] by {
        assert(a[i] == b[i]);
        lemma_char_code(first[i]);
        lemma_char_code(second[i]);
    }
    assert(first =~= second);
}

/// Once nothing waits, the search stays as it is.
pub proof fn lemma_search_settled(nfa: Nfa, symbols: Seq<char>, steps: nat, more: nat)
    requires
        search_after(nfa, symbols, steps).pending.len() == 0,
    ensures
        search_after(nfa, symbols, steps + more) == search_after(nfa, symbols, steps),
    decreases more,
{
    if more > 0 {
        lemma_search_settled(nfa, symbols, steps, (more - 1) as nat);
        reveal_with_fuel(search_after, 2);
        assert(search_after(nfa, symbols, steps + more) == search_step(
            nfa,
            symbols,
            search_after(nfa, symbols, (steps + more - 1) as nat),
        ));
    }
}

/// The search finds the subsets in one order only.
pub proof fn lemma_discovered_unique(nfa: Nfa, first: Seq<Set<State>>, second: Seq<Set<State>>)
    requires
        discovered(nfa, first),
        discovered(nfa, second),
    ensures
        first == second,
{
    let (a, m) = choose|symbols: Seq<char>, steps: nat|
        increasing(symbols) && symbols.to_set() == nfa.alphabet() && #[trigger] search_after(
            nfa,
            symbols,
            steps,
        ) == (Search { found: first, pending: Seq::empty() });
    let (b, n) = choose|symbols: Seq<char>, steps: nat|
        increasing(symbols) && symbols.to_set() == nfa.alphabet() && #[trigger] search_after(
            nfa,
            symbols,
            steps,
        ) == (Search { found: second, pending: Seq::empty() });
    lemma_increasing_unique(a, b);
    if m <= n {
        lemma_search_settled(nfa, a, m, (n - m) as nat);
        assert(m + (n - m) as nat == n);
    } else {
        lemma_search_settled(nfa, a, n, (m - n) as nat);
        assert(n + (m - n) as nat == m);
    }
}

/// Two subset constructions of one automaton with the same subsets are the
/// same automaton.
pub proof fn lemma_determinized_unique(
    nfa: Nfa,
    first: Nfa,
    second: Nfa,
    subsets: Seq<Set<State>>,
)
    requires
        determinized(nfa, first, subsets),
        determinized(nfa, second, subsets),
    ensures
        first == second,
{
    assert forall|edge: Edge| first.edges.contains(edge) <==> second.edges.contains(edge) by {
        assert(first.edges.contains(edge) <==> is_move(nfa, subsets, edge));
        assert(second.edges.contains(edge) <==> is_move(nfa, subsets, edge));
    }
    assert(first.finals =~= second.finals);
    assert(first =~= second);
}

/// Two minimized automata of one automaton are the same automaton.
pub proof fn law_minimized_unique(nfa: Nfa, first: DfaModel, second: DfaModel)
    requires
        minimized(nfa, first),
        minimized(nfa, second),
    ensures
        first.as_nfa() == second.as_nfa(),
        first == second,
{
    let turned = reversed(nfa);
    let (a1, s1, t1) = choose|a: Nfa, s: Seq<Set<State>>, t: Seq<Set<State>>| #[trigger]
        minimized_through(nfa, a, s, first.as_nfa(), t);
    let (a2, s2, t2) = choose|a: Nfa, s: Seq<Set<State>>, t: Seq<Set<State>>| #[trigger]
        minimized_through(nfa, a, s, second.as_nfa(), t);
    lemma_discovered_unique(turned, s1, s2);
    lemma_determinized_unique(turned, a1, a2, s1);
    lemma_discovered_unique(reversed(pruned(a1)), t1, t2);
    lemma_determinized_unique(reversed(pruned(a1)), first.as_nfa(), second.as_nfa(), t1);
    assert forall|key: (State, char)| first.moves.contains_key(key) <==> second.moves.contains_key(
        key,
    ) by {
        lemma_char_code(key.1);
        if first.moves.contains_key(key) {
            let edge = (key.0, TransitionType::Symbol(key.1), first.moves[key]);
            assert(first.as_nfa().edges.contains(edge));
            assert(second.as_nfa().edges.contains(edge));
        }
        if second.moves.contains_key(key) {
            let edge = (key.0, TransitionType::Symbol(key.1), second.moves[key]);
            assert(second.as_nfa().edges.contains(edge));
            assert(first.as_nfa().edges.contains(edge));
        }
    }
    assert forall|key: (State, char)| first.moves.contains_key(key) implies first.moves[key]
        == second.moves[key] by {
        lemma_char_code(key.1);
        let edge = (key.0, TransitionType::Symbol(key.1), first.moves[key]);
        assert(first.as_nfa().edges.contains(edge));
        assert(second.as_nfa().edges.contains(edge));
    }
    assert(first.moves =~= second.moves);
    assert(first =~= second);
}

} // verus!

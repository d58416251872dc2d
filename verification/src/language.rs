//! The texts that an automaton accepts, and what the steps of minimizing
//! keep of them.

use crate::automata::{
    lemma_char_code, lemma_eclosure_closed, lemma_edge_states, DfaModel, Edge, Nfa, State,
    TransitionType,
};
use crate::minimize::{
    determinized, is_move, is_top_state, lemma_determinized_shape, lemma_move_present, minimized,
    minimized_through,
    over, pruned, reversed, subset_after, subset_reached, subset_step, top_state,
};
use vstd::prelude::*;

verus! {

/// Whether `steps` edges lead from `from` to `to` and read `text` on the
/// way: an epsilon edge reads nothing, any other edge reads its character.
pub open spec fn leads_in(nfa: Nfa, from: State, text: Seq<char>, to: State, steps: nat) -> bool
    decreases steps,
{
    if steps == 0 {
        from == to && text.len() == 0
    } else {
        ||| (exists|mid: State| 
            leads_in(nfa, from, text, mid, (steps - 1) as nat) && #[trigger] nfa.edges.contains(
                (mid, TransitionType::Epsilon, to),
            ))
        ||| (text.len() > 0 && (exists|mid: State| 
            leads_in(nfa, from, text.drop_last(), mid, (steps - 1) as nat)
                && #[trigger] nfa.edges.contains((mid, TransitionType::Symbol(text.last()), to))))
    }
}

/// Whether the last of `steps` edges from `from` to `to` is an epsilon edge.
pub open spec fn ends_in_epsilon(
    nfa: Nfa,
    from: State,
    text: Seq<char>,
    to: State,
    steps: nat,
) -> bool {
    steps > 0 && exists|mid: State| 
        leads_in(nfa, from, text, mid, (steps - 1) as nat) && #[trigger] nfa.edges.contains(
            (mid, TransitionType::Epsilon, to),
        )
}

/// The state before the last edge of a path that ends in an epsilon edge.
pub open spec fn before_epsilon(
    nfa: Nfa,
    from: State,
    text: Seq<char>,
    to: State,
    steps: nat,
) -> State {
    choose|mid: State| 
        leads_in(nfa, from, text, mid, (steps - 1) as nat) && #[trigger] nfa.edges.contains(
            (mid, TransitionType::Epsilon, to),
        )
}

/// The state before the last edge of a path that ends in an edge which
/// reads a character.
pub open spec fn before_symbol(
    nfa: Nfa,
    from: State,
    text: Seq<char>,
    to: State,
    steps: nat,
) -> State {
    choose|mid: State| 
        leads_in(nfa, from, text.drop_last(), mid, (steps - 1) as nat)
            && #[trigger] nfa.edges.contains((mid, TransitionType::Symbol(text.last()), to))
}

/// Whether some path leads from `from` to `to` and reads `text`.
pub open spec fn leads(nfa: Nfa, from: State, text: Seq<char>, to: State) -> bool {
    exists|steps: nat| leads_in(nfa, from, text, to, steps)
}

/// Whether some path from the start state to a final state reads `text`.
pub open spec fn accepts(nfa: Nfa, text: Seq<char>) -> bool {
    exists|last: State| nfa.finals.contains(last) && leads(nfa, nfa.start, text, last)
}

/// A path goes on by an epsilon edge.
pub proof fn lemma_leads_epsilon(nfa: Nfa, from: State, text: Seq<char>, mid: State, to: State)
    requires
        leads(nfa, from, text, mid),
        nfa.edges.contains((mid, TransitionType::Epsilon, to)),
    ensures
        leads(nfa, from, text, to),
{
    let steps = choose|steps: nat| leads_in(nfa, from, text, mid, steps);
    assert(leads_in(nfa, from, text, to, steps + 1));
}

/// A path goes on by an edge that reads a character.
pub proof fn lemma_leads_symbol(
    nfa: Nfa,
    from: State,
    text: Seq<char>,
    mid: State,
    symbol: char,
    to: State,
)
    requires
        leads(nfa, from, text, mid),
        nfa.edges.contains((mid, TransitionType::Symbol(symbol), to)),
    ensures
        leads(nfa, from, text.push(symbol), to),
{
    let steps = choose|steps: nat| leads_in(nfa, from, text, mid, steps);
    let longer = text.push(symbol);
    assert(longer.drop_last() == text);
    assert(longer.last() == symbol);
    assert(leads_in(nfa, from, longer, to, steps + 1));
}

/// A path goes on by a path.
pub proof fn lemma_leads_joined(
    nfa: Nfa,
    from: State,
    first: Seq<char>,
    mid: State,
    second: Seq<char>,
    to: State,
    steps: nat,
)
    requires
        leads(nfa, from, first, mid),
        leads_in(nfa, mid, second, to, steps),
    ensures
        leads(nfa, from, first + second, to),
    decreases steps,
{
    if steps == 0 {
        assert(first + second =~= first);
    } else if ends_in_epsilon(nfa, mid, second, to, steps) {
        let prev = before_epsilon(nfa, mid, second, to, steps);
        lemma_leads_joined(nfa, from, first, mid, second, prev, (steps - 1) as nat);
        lemma_leads_epsilon(nfa, from, first + second, prev, to);
    } else {
        let prev = before_symbol(nfa, mid, second, to, steps);
        lemma_leads_joined(nfa, from, first, mid, second.drop_last(), prev, (steps - 1) as nat);
        lemma_leads_symbol(nfa, from, first + second.drop_last(), prev, second.last(), to);
        assert((first + second.drop_last()).push(second.last()) =~= first + second);
    }
}

/// A path of an automaton is a path of every automaton that has its edges.
pub proof fn lemma_leads_more_edges(
    nfa: Nfa,
    more: Nfa,
    from: State,
    text: Seq<char>,
    to: State,
    steps: nat,
)
    requires
        nfa.edges.subset_of(more.edges),
        leads_in(nfa, from, text, to, steps),
    ensures
        leads_in(more, from, text, to, steps),
    decreases steps,
{
    if steps == 0 {
    } else if ends_in_epsilon(nfa, from, text, to, steps) {
        let prev = before_epsilon(nfa, from, text, to, steps);
        lemma_leads_more_edges(nfa, more, from, text, prev, (steps - 1) as nat);
        assert(more.edges.contains((prev, TransitionType::Epsilon, to)));
    } else {
        let prev = before_symbol(nfa, from, text, to, steps);
        lemma_leads_more_edges(nfa, more, from, text.drop_last(), prev, (steps - 1) as nat);
        lemma_char_code(text.last());
        assert(more.edges.contains((prev, TransitionType::Symbol(text.last()), to)));
    }
}

/// A path goes on by epsilon edges.
pub proof fn lemma_leads_eps_reach(
    nfa: Nfa,
    from: State,
    text: Seq<char>,
    mid: State,
    to: State,
    steps: nat,
)
    requires
        leads(nfa, from, text, mid),
        nfa.eps_reach_in(mid, to, steps),
    ensures
        leads(nfa, from, text, to),
    decreases steps,
{
    if steps > 0 {
        let prev = choose|prev: State|
            nfa.eps_reach_in(mid, prev, (steps - 1) as nat) && nfa.edges.contains(
                (prev, TransitionType::Epsilon, to),
            );
        lemma_leads_eps_reach(nfa, from, text, mid, prev, (steps - 1) as nat);
        lemma_leads_epsilon(nfa, from, text, prev, to);
    }
}

/// The states that the automaton may be in after reading `text` are those
/// that a path from the start leads to by reading `text`.
pub proof fn lemma_subset_after_leads(nfa: Nfa, text: Seq<char>, to: State)
    requires
        subset_after(nfa, text).contains(to),
    ensures
        leads(nfa, nfa.start, text, to),
    decreases text.len(),
{
    if text.len() == 0 {
        let state = choose|state: State|
            set![nfa.start].contains(state) && nfa.eps_reach(state, to);
        let steps = choose|steps: nat| nfa.eps_reach_in(state, to, steps);
        assert(leads_in(nfa, nfa.start, text, nfa.start, 0));
        lemma_leads_eps_reach(nfa, nfa.start, text, nfa.start, to, steps);
    } else {
        let shorter = text.drop_last();
        let label = TransitionType::Symbol(text.last());
        let moved = nfa.delta(subset_after(nfa, shorter), label);
        let state = choose|state: State| moved.contains(state) && nfa.eps_reach(state, to);
        let steps = choose|steps: nat| nfa.eps_reach_in(state, to, steps);
        let prev = choose|prev: State|
            subset_after(nfa, shorter).contains(prev) && nfa.edges.contains((prev, label, state));
        lemma_subset_after_leads(nfa, shorter, prev);
        lemma_leads_symbol(nfa, nfa.start, shorter, prev, text.last(), state);
        assert(shorter.push(text.last()) =~= text);
        lemma_leads_eps_reach(nfa, nfa.start, text, state, to, steps);
    }
}

/// Every state that a path from the start leads to by reading `text` is one
/// that the automaton may be in after reading `text`.
pub proof fn lemma_leads_subset_after(nfa: Nfa, text: Seq<char>, to: State, steps: nat)
    requires
        leads_in(nfa, nfa.start, text, to, steps),
    ensures
        subset_after(nfa, text).contains(to),
    decreases steps,
{
    if steps == 0 {
        assert(nfa.eps_reach_in(nfa.start, nfa.start, 0));
        assert(set![nfa.start].contains(nfa.start));
    } else if ends_in_epsilon(nfa, nfa.start, text, to, steps) {
        let prev = before_epsilon(nfa, nfa.start, text, to, steps);
        lemma_leads_subset_after(nfa, text, prev, (steps - 1) as nat);
        if text.len() == 0 {
            lemma_eclosure_closed(nfa, set![nfa.start]);
        } else {
            lemma_eclosure_closed(
                nfa,
                nfa.delta(
                    subset_after(nfa, text.drop_last()),
                    TransitionType::Symbol(text.last()),
                ),
            );
        }
    } else {
        let prev = before_symbol(nfa, nfa.start, text, to, steps);
        lemma_leads_subset_after(nfa, text.drop_last(), prev, (steps - 1) as nat);
        let label = TransitionType::Symbol(text.last());
        let moved = nfa.delta(subset_after(nfa, text.drop_last()), label);
        assert(moved.contains(to));
        lemma_eclosure_closed(nfa, moved);
    }
}

/// An automaton accepts a text where a final state is among the states
/// that it may be in after reading the text.
pub proof fn lemma_accepts_subset_after(nfa: Nfa, text: Seq<char>)
    ensures
        accepts(nfa, text) <==> !subset_after(nfa, text).disjoint(nfa.finals),
{
    if accepts(nfa, text) {
        let last = choose|last: State|
            nfa.finals.contains(last) && leads(nfa, nfa.start, text, last);
        let steps = choose|steps: nat| leads_in(nfa, nfa.start, text, last, steps);
        lemma_leads_subset_after(nfa, text, last, steps);
    }
    if !subset_after(nfa, text).disjoint(nfa.finals) {
        let last = choose|last: State|
            subset_after(nfa, text).contains(last) && nfa.finals.contains(last);
        lemma_subset_after_leads(nfa, text, last);
    }
}

/// A set without states leads nowhere.
pub proof fn lemma_step_from_nothing(nfa: Nfa, symbol: char)
    ensures
        subset_step(nfa, Set::empty(), symbol) == Set::<State>::empty(),
{
    let moved = nfa.delta(Set::empty(), TransitionType::Symbol(symbol));
    assert(moved =~= Set::<State>::empty());
    assert(nfa.eclosure(moved) =~= Set::<State>::empty());
}

/// After a character outside its alphabet, the automaton is in no state.
pub proof fn lemma_not_over_nothing(nfa: Nfa, text: Seq<char>)
    requires
        !over(text, nfa.alphabet()),
    ensures
        subset_after(nfa, text) == Set::<State>::empty(),
    decreases text.len(),
{
    if text.len() > 0 {
        let shorter = text.drop_last();
        let symbol = text.last();
        if nfa.alphabet().contains(symbol) {
            assert(!over(shorter, nfa.alphabet())) by {
                if over(shorter, nfa.alphabet()) {
                    assert forall|i: int| 0 <= i < text.len() implies nfa.alphabet().contains(
                        #[trigger] text[i],
                    ) by {
                        if i < shorter.len() {
                            assert(shorter[i] == text[i]);
                        }
                    }
                }
            }
            lemma_not_over_nothing(nfa, shorter);
            lemma_step_from_nothing(nfa, symbol);
        } else {
            let moved = nfa.delta(subset_after(nfa, shorter), TransitionType::Symbol(symbol));
            assert(moved =~= Set::<State>::empty());
            assert(nfa.eclosure(moved) =~= Set::<State>::empty());
        }
    }
}

/// In a subset construction, a path from the start ends in the state that
/// stands for the subset reached by reading the same text.
pub proof fn lemma_determinized_leads(
    nfa: Nfa,
    dfa: Nfa,
    subsets: Seq<Set<State>>,
    text: Seq<char>,
    to: State,
    steps: nat,
)
    requires
        determinized(nfa, dfa, subsets),
        leads_in(dfa, dfa.start, text, to, steps),
    ensures
        to < subsets.len(),
        subsets[to as int] == subset_after(nfa, text),
        over(text, nfa.alphabet()),
    decreases steps,
{
    if steps == 0 {
        assert(text =~= Seq::<char>::empty());
    } else if ends_in_epsilon(dfa, dfa.start, text, to, steps) {
        let prev = before_epsilon(dfa, dfa.start, text, to, steps);
        assert(is_move(nfa, subsets, (prev, TransitionType::Epsilon, to)));
    } else {
        let prev = before_symbol(dfa, dfa.start, text, to, steps);
        lemma_char_code(text.last());
        lemma_determinized_leads(nfa, dfa, subsets, text.drop_last(), prev, (steps - 1) as nat);
        assert(is_move(nfa, subsets, (prev, TransitionType::Symbol(text.last()), to)));
        assert forall|i: int| 0 <= i < text.len() implies nfa.alphabet().contains(
            #[trigger] text[i],
        ) by {
            if i < text.len() - 1 {
                assert(text.drop_last()[i] == text[i]);
            }
        }
    }
}

/// In a subset construction, a path from the start reads every text over
/// the alphabet, and ends in the state that stands for the subset reached.
pub proof fn lemma_determinized_follows(
    nfa: Nfa,
    dfa: Nfa,
    subsets: Seq<Set<State>>,
    text: Seq<char>,
) -> (state: State)
    requires
        determinized(nfa, dfa, subsets),
        over(text, nfa.alphabet()),
    ensures
        state < subsets.len(),
        subsets[state as int] == subset_after(nfa, text),
        leads(dfa, dfa.start, text, state),
    decreases text.len(),
{
    if text.len() == 0 {
        assert(text =~= Seq::<char>::empty());
        assert(leads_in(dfa, dfa.start, text, 0, 0));
        0
    } else {
        let shorter = text.drop_last();
        assert forall|i: int| 0 <= i < shorter.len() implies nfa.alphabet().contains(
            #[trigger] shorter[i],
        ) by {
            assert(shorter[i] == text[i]);
        }
        let prev = lemma_determinized_follows(nfa, dfa, subsets, shorter);
        let target = subset_after(nfa, text);
        assert(subset_reached(nfa, target));
        assert(subsets.contains(target));
        let place = choose|place: int| 0 <= place < subsets.len() && subsets[place] == target;
        let state = place as State;
        let symbol = text.last();
        lemma_char_code(symbol);
        assert(nfa.alphabet().contains(text[text.len() - 1]));
        let edge = (prev, TransitionType::Symbol(symbol), state);
        assert(is_move(nfa, subsets, edge));
        lemma_move_present(nfa, dfa, subsets, edge);
        lemma_leads_symbol(dfa, dfa.start, shorter, prev, symbol, state);
        assert(shorter.push(symbol) =~= text);
        state
    }
}

/// A subset construction accepts the texts that the automaton it was made
/// from accepts.
pub proof fn lemma_determinized_accepts(
    nfa: Nfa,
    dfa: Nfa,
    subsets: Seq<Set<State>>,
    text: Seq<char>,
)
    requires
        determinized(nfa, dfa, subsets),
    ensures
        accepts(dfa, text) <==> accepts(nfa, text),
{
    lemma_accepts_subset_after(nfa, text);
    if accepts(dfa, text) {
        let last = choose|last: State|
            dfa.finals.contains(last) && leads(dfa, dfa.start, text, last);
        let steps = choose|steps: nat| leads_in(dfa, dfa.start, text, last, steps);
        lemma_determinized_leads(nfa, dfa, subsets, text, last, steps);
    }
    if accepts(nfa, text) {
        if !over(text, nfa.alphabet()) {
            lemma_not_over_nothing(nfa, text);
        }
        let state = lemma_determinized_follows(nfa, dfa, subsets, text);
        assert(dfa.finals.contains(state));
    }
}

/// A path of a deterministic automaton from its start ends where reading
/// the text ends.
pub proof fn lemma_dfa_leads(dfa: DfaModel, text: Seq<char>, to: State, steps: nat)
    requires
        leads_in(dfa.as_nfa(), dfa.start, text, to, steps),
    ensures
        dfa.state_after(text) == Some(to),
    decreases steps,
{
    let nfa = dfa.as_nfa();
    if steps == 0 {
    } else if ends_in_epsilon(nfa, dfa.start, text, to, steps) {
        let prev = before_epsilon(nfa, dfa.start, text, to, steps);
        assert(nfa.edges.contains((prev, TransitionType::Epsilon, to)));
    } else {
        let prev = before_symbol(nfa, dfa.start, text, to, steps);
        lemma_char_code(text.last());
        lemma_dfa_leads(dfa, text.drop_last(), prev, (steps - 1) as nat);
        assert(nfa.edges.contains((prev, TransitionType::Symbol(text.last()), to)));
    }
}

/// Where reading the text ends, a path of the deterministic automaton
/// leads.
pub proof fn lemma_dfa_follows(dfa: DfaModel, text: Seq<char>)
    requires
        dfa.state_after(text) is Some,
    ensures
        leads(dfa.as_nfa(), dfa.start, text, dfa.state_after(text)->0),
    decreases text.len(),
{
    let nfa = dfa.as_nfa();
    if text.len() == 0 {
        assert(leads_in(nfa, dfa.start, text, dfa.start, 0));
    } else {
        let shorter = text.drop_last();
        let symbol = text.last();
        lemma_char_code(symbol);
        lemma_dfa_follows(dfa, shorter);
        let prev = dfa.state_after(shorter)->0;
        let to = dfa.state_after(text)->0;
        assert(nfa.edges.contains((prev, TransitionType::Symbol(symbol), to)));
        lemma_leads_symbol(nfa, dfa.start, shorter, prev, symbol, to);
        assert(shorter.push(symbol) =~= text);
    }
}

/// A deterministic automaton accepts a text where a path from its start to
/// a final state reads it.
pub proof fn lemma_dfa_accepts(dfa: DfaModel, text: Seq<char>)
    ensures
        dfa.accepts(text) <==> accepts(dfa.as_nfa(), text),
{
    let nfa = dfa.as_nfa();
    if dfa.accepts(text) {
        lemma_dfa_follows(dfa, text);
        let last = dfa.state_after(text)->0;
        assert(nfa.finals.contains(last) && leads(nfa, nfa.start, text, last));
    }
    if accepts(nfa, text) {
        let last = choose|last: State|
            nfa.finals.contains(last) && leads(nfa, nfa.start, text, last);
        let steps = choose|steps: nat| leads_in(nfa, nfa.start, text, last, steps);
        lemma_dfa_leads(dfa, text, last, steps);
    }
}

/// The automaton with every edge turned round.
pub open spec fn flipped(nfa: Nfa) -> Nfa {
    Nfa { edges: Set::new(|edge: Edge| nfa.edges.contains((edge.2, edge.1, edge.0))), ..nfa }
}

/// A path goes on from an epsilon edge before it.
pub proof fn lemma_leads_front_epsilon(
    nfa: Nfa,
    from: State,
    mid: State,
    text: Seq<char>,
    to: State,
)
    requires
        nfa.edges.contains((from, TransitionType::Epsilon, mid)),
        leads(nfa, mid, text, to),
    ensures
        leads(nfa, from, text, to),
{
    let nothing = Seq::<char>::empty();
    assert(leads_in(nfa, from, nothing, from, 0));
    lemma_leads_epsilon(nfa, from, nothing, from, mid);
    let steps = choose|steps: nat| leads_in(nfa, mid, text, to, steps);
    lemma_leads_joined(nfa, from, nothing, mid, text, to, steps);
    assert(nothing + text =~= text);
}

/// A path goes on from an edge before it that reads a character.
pub proof fn lemma_leads_front_symbol(
    nfa: Nfa,
    from: State,
    symbol: char,
    mid: State,
    text: Seq<char>,
    to: State,
)
    requires
        nfa.edges.contains((from, TransitionType::Symbol(symbol), mid)),
        leads(nfa, mid, text, to),
    ensures
        leads(nfa, from, seq![symbol] + text, to),
{
    let nothing = Seq::<char>::empty();
    assert(leads_in(nfa, from, nothing, from, 0));
    lemma_leads_symbol(nfa, from, nothing, from, symbol, mid);
    assert(nothing.push(symbol) =~= seq![symbol]);
    let steps = choose|steps: nat| leads_in(nfa, mid, text, to, steps);
    lemma_leads_joined(nfa, from, seq![symbol], mid, text, to, steps);
}

/// A path, walked backwards, is a path of the automaton with every edge
/// turned round, and reads the text backwards.
pub proof fn lemma_flipped_leads(nfa: Nfa, from: State, text: Seq<char>, to: State, steps: nat)
    requires
        leads_in(nfa, from, text, to, steps),
    ensures
        leads(flipped(nfa), to, text.reverse(), from),
    decreases steps,
{
    let turned = flipped(nfa);
    if steps == 0 {
        assert(text.reverse() =~= Seq::<char>::empty());
        assert(leads_in(turned, to, text.reverse(), from, 0));
    } else if ends_in_epsilon(nfa, from, text, to, steps) {
        let prev = before_epsilon(nfa, from, text, to, steps);
        lemma_flipped_leads(nfa, from, text, prev, (steps - 1) as nat);
        assert(turned.edges.contains((to, TransitionType::Epsilon, prev)));
        lemma_leads_front_epsilon(turned, to, prev, text.reverse(), from);
    } else {
        let prev = before_symbol(nfa, from, text, to, steps);
        let symbol = text.last();
        lemma_char_code(symbol);
        lemma_flipped_leads(nfa, from, text.drop_last(), prev, (steps - 1) as nat);
        assert(nfa.edges.contains((prev, TransitionType::Symbol(symbol), to)));
        assert(turned.edges.contains((to, TransitionType::Symbol(symbol), prev)));
        lemma_leads_front_symbol(turned, to, symbol, prev, text.drop_last().reverse(), from);
        assert(seq![symbol] + text.drop_last().reverse() =~= text.reverse());
    }
}

/// An automaton has a greatest state.
pub proof fn lemma_top_exists(nfa: Nfa)
    ensures
        is_top_state(nfa, top_state(nfa)),
{
    assert(nfa.states().contains(nfa.start));
    let top = lemma_greatest_below(nfa.states(), usize::MAX as nat);
    assert(is_top_state(nfa, top));
}

/// A set of numbers that has a member and holds none above `bound` has a
/// greatest member.
pub proof fn lemma_greatest_below(set: Set<State>, bound: nat) -> (top: State)
    requires
        !(set =~= Set::<State>::empty()),
        forall|state: State| #[trigger] set.contains(state) ==> state <= bound,
        bound <= usize::MAX,
    ensures
        set.contains(top),
        forall|state: State| #[trigger] set.contains(state) ==> state <= top,
    decreases bound,
{
    if set.contains(bound as State) {
        bound as State
    } else {
        if bound == 0 {
            assert forall|state: State| !set.contains(state) by {
                if set.contains(state) {
                    assert(state <= bound);
                }
            }
            assert(set =~= Set::<State>::empty());
        }
        assert forall|state: State| #[trigger] set.contains(state) implies state <= bound - 1 by {
            assert(state <= bound);
        }
        lemma_greatest_below(set, (bound - 1) as nat)
    }
}

/// In a reversed automaton, a path from the new start reads nothing until
/// it leaves the start, and from there on walks, backwards, a path of the
/// automaton that ends in a final state.
pub proof fn lemma_reversed_leads(nfa: Nfa, text: Seq<char>, to: State, steps: nat)
    requires
        top_state(nfa) < usize::MAX,
        leads_in(reversed(nfa), reversed(nfa).start, text, to, steps),
    ensures
        to == reversed(nfa).start ==> text.len() == 0,
        to != reversed(nfa).start ==> exists|last: State|
            nfa.finals.contains(last) && #[trigger] leads(flipped(nfa), last, text, to),
    decreases steps,
{
    let turned = reversed(nfa);
    let start = turned.start;
    let plain = flipped(nfa);
    lemma_top_exists(nfa);
    assert forall|edge: Edge| #[trigger] nfa.edges.contains(edge) implies edge.0 != start && edge.2
        != start by {
        lemma_edge_states(nfa, edge);
    }
    if steps == 0 {
    } else if ends_in_epsilon(turned, start, text, to, steps) {
        let prev = before_epsilon(turned, start, text, to, steps);
        lemma_reversed_leads(nfa, text, prev, (steps - 1) as nat);
        let edge = (prev, TransitionType::Epsilon, to);
        assert(turned.edges.contains(edge));
        if nfa.edges.contains((to, TransitionType::Epsilon, prev)) {
            let last = choose|last: State|
                nfa.finals.contains(last) && #[trigger] leads(plain, last, text, prev);
            assert(plain.edges.contains(edge));
            lemma_leads_epsilon(plain, last, text, prev, to);
        } else {
            assert(prev == start);
            if to != start {
                assert(leads_in(plain, to, text, to, 0));
                assert(nfa.finals.contains(to) && leads(plain, to, text, to));
            }
        }
    } else {
        let prev = before_symbol(turned, start, text, to, steps);
        let symbol = text.last();
        lemma_char_code(symbol);
        lemma_reversed_leads(nfa, text.drop_last(), prev, (steps - 1) as nat);
        let edge = (prev, TransitionType::Symbol(symbol), to);
        assert(turned.edges.contains(edge));
        assert(nfa.edges.contains((to, TransitionType::Symbol(symbol), prev)));
        let last = choose|last: State|
            nfa.finals.contains(last) && #[trigger] leads(plain, last, text.drop_last(), prev);
        assert(plain.edges.contains(edge));
        lemma_leads_symbol(plain, last, text.drop_last(), prev, symbol, to);
        assert(text.drop_last().push(symbol) =~= text);
    }
}

/// A reversed automaton accepts a text where the automaton accepts the text
/// read backwards.
pub proof fn lemma_reversed_accepts(nfa: Nfa, text: Seq<char>)
    requires
        top_state(nfa) < usize::MAX,
    ensures
        accepts(reversed(nfa), text) <==> accepts(nfa, text.reverse()),
{
    let turned = reversed(nfa);
    let plain = flipped(nfa);
    lemma_top_exists(nfa);
    assert(nfa.states().contains(nfa.start));
    assert(turned.start != nfa.start);
    assert(plain.edges.subset_of(turned.edges));
    if accepts(turned, text) {
        let end = choose|end: State|
            turned.finals.contains(end) && leads(turned, turned.start, text, end);
        let steps = choose|steps: nat| leads_in(turned, turned.start, text, end, steps);
        lemma_reversed_leads(nfa, text, end, steps);
        let last = choose|last: State|
            nfa.finals.contains(last) && #[trigger] leads(plain, last, text, nfa.start);
        let back = choose|back: nat| leads_in(plain, last, text, nfa.start, back);
        lemma_flipped_leads(plain, last, text, nfa.start, back);
        let again = flipped(plain);
        assert(again.edges =~= nfa.edges);
        let forth = choose|forth: nat| leads_in(again, nfa.start, text.reverse(), last, forth);
        lemma_leads_more_edges(again, nfa, nfa.start, text.reverse(), last, forth);
        assert(nfa.finals.contains(last) && leads(nfa, nfa.start, text.reverse(), last));
    }
    if accepts(nfa, text.reverse()) {
        let last = choose|last: State|
            nfa.finals.contains(last) && leads(nfa, nfa.start, text.reverse(), last);
        let forth = choose|forth: nat| leads_in(nfa, nfa.start, text.reverse(), last, forth);
        lemma_flipped_leads(nfa, nfa.start, text.reverse(), last, forth);
        assert(text.reverse().reverse() =~= text);
        let back = choose|back: nat| leads_in(plain, last, text, nfa.start, back);
        lemma_leads_more_edges(plain, turned, last, text, nfa.start, back);
        assert(turned.edges.contains((turned.start, TransitionType::Epsilon, last)));
        lemma_leads_front_epsilon(turned, turned.start, last, text, nfa.start);
        assert(turned.finals.contains(nfa.start) && leads(turned, turned.start, text, nfa.start));
    }
}

/// Reversing, determinizing and pruning twice over keeps the texts that the
/// automaton accepts.
pub proof fn lemma_minimized_accepts(nfa: Nfa, dfa: DfaModel, text: Seq<char>)
    requires
        minimized(nfa, dfa),
        top_state(nfa) < usize::MAX,
    ensures
        dfa.accepts(text) <==> accepts(nfa, text),
{
    let (first, firsts, seconds) = choose|
        first: Nfa,
        firsts: Seq<Set<State>>,
        seconds: Seq<Set<State>>,
    | #[trigger] minimized_through(nfa, first, firsts, dfa.as_nfa(), seconds);
    lemma_determinized_shape(reversed(nfa), first, firsts);
    lemma_top_exists(first);
    lemma_dfa_accepts(dfa, text);
    lemma_determinized_accepts(reversed(first), dfa.as_nfa(), seconds, text);
    lemma_reversed_accepts(first, text);
    lemma_determinized_accepts(reversed(nfa), first, firsts, text.reverse());
    lemma_reversed_accepts(nfa, text.reverse());
    assert(text.reverse().reverse() =~= text);
}

} // verus!

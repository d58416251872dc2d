//! Finite automata over characters: the mathematical model and the
//! executable automaton whose view it is.
//!
//! States are plain numbers. An automaton is a start state, a set of final
//! states and a set of labelled edges; an edge labelled `Epsilon` is taken
//! without reading input.

use std::collections::BTreeMap;
use std::collections::BTreeSet;
use crate::order::{ascending, insert_ascending, key_lt, Key};
use crate::sets::{insert_all, lemma_finite, set_items};
use vstd::prelude::*;
use vstd::set_lib::*;
use vstd::std_specs::btree::*;
use vstd::std_specs::iter::IteratorSpec;

verus! {

broadcast use vstd::laws_cmp::group_laws_cmp;

#[derive(Eq, Hash, PartialEq, Debug, Clone, Copy, Ord, PartialOrd, Structural)]
pub enum TransitionType {
    Epsilon,
    Symbol(char),
}

pub type State = usize;

/// An edge from its first state to its last, under the label between them.
pub type Edge = (State, TransitionType, State);

/// The mathematical model of an automaton.
#[verifier::ext_equal]
pub struct Nfa {
    pub start: State,
    pub finals: Set<State>,
    pub edges: Set<Edge>,
}

impl Nfa {
    /// The automaton with a start state and nothing else.
    pub open spec fn empty(start: State) -> Nfa {
        Nfa { start, finals: Set::empty(), edges: Set::empty() }
    }

    /// The states that `label` leads to from `from`.
    pub open spec fn targets(self, from: State, label: TransitionType) -> Set<State> {
        Set::new(|to: State| self.edges.contains((from, label, to)))
    }

    /// Whether some edge leaves `from` under `label`.
    pub open spec fn has_key(self, from: State, label: TransitionType) -> bool {
        exists|to: State| self.edges.contains((from, label, to))
    }

    /// The states that some edge leaves or enters.
    pub open spec fn edge_ends(self) -> Set<State> {
        Set::new(
            |state: State|
                exists|edge: Edge| #[trigger]
                    self.edges.contains(edge) && (edge.0 == state || edge.2 == state),
        )
    }

    /// The states of the automaton: the start state, the final states and
    /// the states that some edge leaves or enters.
    pub open spec fn states(self) -> Set<State> {
        self.edge_ends().union(self.finals).insert(self.start)
    }

    /// The characters that label some edge.
    pub open spec fn alphabet(self) -> Set<char> {
        Set::new(
            |symbol: char|
                exists|from: State, to: State|
                    self.edges.contains((from, TransitionType::Symbol(symbol), to)),
        )
    }

    pub open spec fn add_edge(self, from: State, label: TransitionType, to: State) -> Nfa {
        Nfa { edges: self.edges.insert((from, label, to)), ..self }
    }

    pub open spec fn add_final(self, state: State) -> Nfa {
        Nfa { finals: self.finals.insert(state), ..self }
    }

    /// This automaton with the final states and the edges of `other` added.
    pub open spec fn merge(self, other: Nfa) -> Nfa {
        Nfa {
            start: self.start,
            finals: self.finals.union(other.finals),
            edges: self.edges.union(other.edges),
        }
    }

    /// This automaton without the edges that leave `state`.
    pub open spec fn without_source(self, state: State) -> Nfa {
        Nfa { edges: self.edges.filter(|edge: Edge| edge.0 != state), ..self }
    }

    /// The states that one step under `label` leads to from a state of `from`.
    pub open spec fn delta(self, from: Set<State>, label: TransitionType) -> Set<State> {
        Set::new(
            |to: State|
                exists|state: State|
                    from.contains(state) && self.edges.contains((state, label, to)),
        )
    }

    /// Whether `steps` epsilon edges lead from `from` to `to`.
    pub open spec fn eps_reach_in(self, from: State, to: State, steps: nat) -> bool
        decreases steps,
    {
        if steps == 0 {
            from == to
        } else {
            exists|mid: State|
                self.eps_reach_in(from, mid, (steps - 1) as nat) && self.edges.contains(
                    (mid, TransitionType::Epsilon, to),
                )
        }
    }

    /// Whether epsilon edges alone lead from `from` to `to`.
    pub open spec fn eps_reach(self, from: State, to: State) -> bool {
        exists|steps: nat| self.eps_reach_in(from, to, steps)
    }

    /// The states that epsilon edges alone lead to from a state of `from`:
    /// the smallest superset of `from` that epsilon edges do not leave.
    pub open spec fn eclosure(self, from: Set<State>) -> Set<State> {
        Set::new(|to: State| exists|state: State| from.contains(state) && self.eps_reach(state, to))
    }

    /// Whether no epsilon edge leads out of `set`.
    pub open spec fn eps_closed(self, set: Set<State>) -> bool {
        forall|from: State, to: State|
            set.contains(from) && self.edges.contains((from, TransitionType::Epsilon, to))
                ==> set.contains(to)
    }
}

/// Both ends of an edge are states of the automaton.
pub proof fn lemma_edge_states(nfa: Nfa, edge: Edge)
    requires
        nfa.edges.contains(edge),
    ensures
        nfa.edge_ends().contains(edge.0),
        nfa.edge_ends().contains(edge.2),
        nfa.states().contains(edge.0),
        nfa.states().contains(edge.2),
{
}

/// Finitely many edges and final states make finitely many states.
pub proof fn lemma_states_finite(nfa: Nfa)
    requires
        nfa.edges.finite(),
        nfa.finals.finite(),
    ensures
        nfa.edge_ends().finite(),
        nfa.states().finite(),
{
    let sources = nfa.edges.map(|edge: Edge| edge.0);
    let targets = nfa.edges.map(|edge: Edge| edge.2);
    nfa.edges.lemma_map_finite(|edge: Edge| edge.0);
    nfa.edges.lemma_map_finite(|edge: Edge| edge.2);
    assert forall|state: State| nfa.edge_ends().contains(state) implies sources.union(
        targets,
    ).contains(state) by {
        let edge = choose|edge: Edge| #[trigger]
            nfa.edges.contains(edge) && (edge.0 == state || edge.2 == state);
        if edge.0 == state {
            assert(sources.contains(state));
        } else {
            assert(targets.contains(state));
        }
    }
    lemma_set_subset_finite(sources.union(targets), nfa.edge_ends());
}

/// One more state to step from adds the states that it leads to.
pub proof fn lemma_delta_insert(nfa: Nfa, from: Set<State>, state: State, label: TransitionType)
    ensures
        nfa.delta(from.insert(state), label) == nfa.delta(from, label).union(
            nfa.targets(state, label),
        ),
{
    let whole = nfa.delta(from.insert(state), label);
    let parts = nfa.delta(from, label).union(nfa.targets(state, label));
    assert forall|to: State| whole.contains(to) <==> parts.contains(to) by {
        if whole.contains(to) {
            let source = choose|source: State|
                from.insert(state).contains(source) && nfa.edges.contains((source, label, to));
            if source != state {
                assert(from.contains(source));
            }
        }
        if nfa.delta(from, label).contains(to) {
            let source = choose|source: State|
                from.contains(source) && nfa.edges.contains((source, label, to));
            assert(from.insert(state).contains(source));
        }
        if nfa.targets(state, label).contains(to) {
            assert(from.insert(state).contains(state));
        }
    }
    assert(whole =~= parts);
}

/// A set that epsilon edges do not leave holds every state that epsilon
/// edges lead to from one of its states.
pub proof fn lemma_eps_closed_holds_reach(
    nfa: Nfa,
    set: Set<State>,
    from: State,
    to: State,
    steps: nat,
)
    requires
        nfa.eps_closed(set),
        set.contains(from),
        nfa.eps_reach_in(from, to, steps),
    ensures
        set.contains(to),
    decreases steps,
{
    if steps > 0 {
        let mid = choose|mid: State|
            nfa.eps_reach_in(from, mid, (steps - 1) as nat) && nfa.edges.contains(
                (mid, TransitionType::Epsilon, to),
            );
        lemma_eps_closed_holds_reach(nfa, set, from, mid, (steps - 1) as nat);
    }
}

/// The epsilon closure holds the set it closes, and epsilon edges do not
/// leave it.
pub proof fn lemma_eclosure_closed(nfa: Nfa, from: Set<State>)
    ensures
        from.subset_of(nfa.eclosure(from)),
        nfa.eps_closed(nfa.eclosure(from)),
{
    assert forall|state: State| from.contains(state) implies nfa.eclosure(from).contains(
        state,
    ) by {
        assert(nfa.eps_reach_in(state, state, 0));
    }
    assert forall|mid: State, to: State|
        nfa.eclosure(from).contains(mid) && nfa.edges.contains(
            (mid, TransitionType::Epsilon, to),
        ) implies nfa.eclosure(from).contains(to) by {
        let state = choose|state: State| from.contains(state) && nfa.eps_reach(state, mid);
        let steps = choose|steps: nat| nfa.eps_reach_in(state, mid, steps);
        assert(nfa.eps_reach_in(state, to, steps + 1));
    }
}

/// The epsilon closure is the smallest set that holds `from` and that
/// epsilon edges do not leave.
pub proof fn lemma_eclosure_least(nfa: Nfa, from: Set<State>, set: Set<State>)
    requires
        from.subset_of(set),
        nfa.eps_closed(set),
    ensures
        nfa.eclosure(from).subset_of(set),
{
    assert forall|to: State| nfa.eclosure(from).contains(to) implies set.contains(to) by {
        let state = choose|state: State| from.contains(state) && nfa.eps_reach(state, to);
        let steps = choose|steps: nat| nfa.eps_reach_in(state, to, steps);
        lemma_eps_closed_holds_reach(nfa, set, state, to, steps);
    }
}

/// The number that stands for a label in the keys of the transition table:
/// nothing for `Epsilon`, the code point for a symbol.
pub open spec fn label_code(label: TransitionType) -> Option<u32> {
    match label {
        TransitionType::Epsilon => None,
        TransitionType::Symbol(symbol) => Some(symbol as u32),
    }
}

/// Whether `code` is the code point of a character.
pub open spec fn is_char_code(code: u32) -> bool {
    code <= 0xD7FF || 0xE000 <= code <= 0x10FFFF
}

/// A character is given by its code point.
pub proof fn lemma_char_code(symbol: char)
    ensures
        is_char_code(symbol as u32),
        (symbol as u32) as char == symbol,
{
}

pub proof fn lemma_label_code_injective(a: TransitionType, b: TransitionType)
    requires
        label_code(a) == label_code(b),
    ensures
        a == b,
{
    match (a, b) {
        (TransitionType::Symbol(x), TransitionType::Symbol(y)) => {
            assert(x as u32 == y as u32);
            assert((x as u32) as char == x);
            assert((y as u32) as char == y);
        },
        _ => {},
    }
}

fn encode(label: TransitionType) -> (code: Option<u32>)
    ensures
        code == label_code(label),
        code matches Some(point) ==> is_char_code(point),
{
    match label {
        TransitionType::Epsilon => None,
        TransitionType::Symbol(symbol) => Some(symbol as u32),
    }
}

/// `char::from_u32` gives the character with the code point `code`, and
/// nothing where `code` is no code point of a character.
#[verifier::external_body]
pub(crate) fn symbol_of(code: u32) -> (symbol: Option<char>)
    ensures
        symbol is Some <==> is_char_code(code),
        symbol matches Some(found) ==> found as u32 == code,
{
    char::from_u32(code)
}

/// The number by which a label is ordered: epsilon first, then the
/// characters by their code points.
pub open spec fn label_rank(label: TransitionType) -> u32 {
    match label {
        TransitionType::Epsilon => 0,
        TransitionType::Symbol(symbol) => (symbol as u32 + 1) as u32,
    }
}

/// The key by which an edge is ordered: start state, then label, then end
/// state.
pub open spec fn edge_key(edge: Edge) -> Key {
    (edge.0, label_rank(edge.1), edge.2)
}

/// The keys of the edges.
pub open spec fn keys_of(list: Seq<Edge>) -> Seq<Key> {
    Seq::new(list.len(), |i: int| edge_key(list[i]))
}

/// Whether the edges stand in the order of their keys, each once.
pub open spec fn in_key_order(list: Seq<Edge>) -> bool {
    ascending(keys_of(list))
}

/// Whether the characters stand in the order of their code points, each
/// once.
pub open spec fn increasing(symbols: Seq<char>) -> bool {
    forall|i: int, j: int|
        0 <= i < j < symbols.len() ==> (#[trigger] symbols[i] as u32) < (
        #[trigger] symbols[j] as u32)
}

/// Edges with the same key are the same edge.
pub proof fn lemma_edge_key_injective(first: Edge, second: Edge)
    requires
        edge_key(first) == edge_key(second),
    ensures
        first == second,
{
    match (first.1, second.1) {
        (TransitionType::Symbol(x), TransitionType::Symbol(y)) => {
            lemma_char_code(x);
            lemma_char_code(y);
        },
        (TransitionType::Symbol(x), TransitionType::Epsilon) => {
            lemma_char_code(x);
        },
        (TransitionType::Epsilon, TransitionType::Symbol(y)) => {
            lemma_char_code(y);
        },
        _ => {},
    }
}

/// A list holds an edge where its keys hold the key of the edge.
pub proof fn lemma_keys_contain(list: Seq<Edge>, edge: Edge)
    ensures
        list.contains(edge) <==> keys_of(list).contains(edge_key(edge)),
{
    let keys = keys_of(list);
    if list.contains(edge) {
        let i = choose|i: int| 0 <= i < list.len() && list[i] == edge;
        assert(keys[i] == edge_key(edge));
    }
    if keys.contains(edge_key(edge)) {
        let i = choose|i: int| 0 <= i < keys.len() && keys[i] == edge_key(edge);
        lemma_edge_key_injective(list[i], edge);
    }
}

/// Two lists in key order of the same edges are the same list.
pub proof fn lemma_key_order_unique(first: Seq<Edge>, second: Seq<Edge>)
    requires
        in_key_order(first),
        in_key_order(second),
        first.to_set() == second.to_set(),
    ensures
        first == second,
{
    let a = keys_of(first);
    let b = keys_of(second);
    assert forall|key: Key| a.to_set().contains(key) <==> b.to_set().contains(key) by {
        if a.contains(key) {
            let i = choose|i: int| 0 <= i < a.len() && a[i] == key;
            assert(first.to_set().contains(first[i]));
            assert(second.contains(first[i]));
            lemma_keys_contain(second, first[i]);
        }
        if b.contains(key) {
            let i = choose|i: int| 0 <= i < b.len() && b[i] == key;
            assert(second.to_set().contains(second[i]));
            assert(first.contains(second[i]));
            lemma_keys_contain(first, second[i]);
        }
    }
    assert(a.to_set() =~= b.to_set());
    crate::order::lemma_ascending_unique(a, b);
    assert forall|i: int| 0 <= i < first.len() implies first[i] == second[i] by {
        assert(a[i] == b[i]);
        lemma_edge_key_injective(first[i], second[i]);
    }
    assert(first =~= second);
}

fn rank(label: TransitionType) -> (number: u32)
    ensures
        number == label_rank(label),
{
    match label {
        TransitionType::Epsilon => 0,
        TransitionType::Symbol(symbol) => {
            proof {
                lemma_char_code(symbol);
            }
            symbol as u32 + 1
        },
    }
}

/// The edges of the list in the order of their keys, each once.
pub fn sort_edges(list: &Vec<Edge>) -> (sorted: Vec<Edge>)
    ensures
        sorted@.to_set() == list@.to_set(),
        in_key_order(sorted@),
{
    let mut sorted: Vec<Edge> = Vec::new();
    let mut keys: Vec<Key> = Vec::new();
    let mut i: usize = 0;
    assert(keys_of(sorted@) =~= keys@);
    while i < list.len()
        invariant
            i <= list.len(),
            keys@ == keys_of(sorted@),
            ascending(keys@),
            sorted@.to_set() == list@.take(i as int).to_set(),
        decreases list.len() - i,
    {
        let edge = list[i];
        let ghost before = sorted@;
        let ghost keys_before = keys@;
        let (place, fresh) = insert_ascending(&mut keys, (edge.0, rank(edge.1), edge.2));
        if fresh {
            sorted.insert(place, edge);
        }
        proof {
            list@.lemma_take_succ_push(i as int);
            list@.take(i as int).lemma_push_to_set_commute(edge);
            assert(keys@ =~= keys_of(sorted@));
            lemma_sorted_step(before, sorted@, edge);
        }
        i += 1;
    }
    assert(list@.take(list@.len() as int) == list@);
    sorted
}

/// An edge more among the keys is an edge more in the list.
proof fn lemma_sorted_step(before: Seq<Edge>, after: Seq<Edge>, edge: Edge)
    requires
        keys_of(after).to_set() == keys_of(before).to_set().insert(edge_key(edge)),
    ensures
        after.to_set() == before.to_set().insert(edge),
{
    assert forall|other: Edge| after.to_set().contains(other) <==> before.to_set().insert(
        edge,
    ).contains(other) by {
        lemma_keys_contain(after, other);
        lemma_keys_contain(before, other);
        if edge_key(other) == edge_key(edge) {
            lemma_edge_key_injective(other, edge);
        }
        let key = edge_key(other);
        assert(keys_of(after).to_set().contains(key) == keys_of(after).contains(key));
        assert(keys_of(before).to_set().contains(key) == keys_of(before).contains(key));
        assert(after.to_set().contains(other) == after.contains(other));
        assert(before.to_set().contains(other) == before.contains(other));
        assert(keys_of(after).to_set().contains(key) <==> keys_of(before).to_set().insert(
            edge_key(edge),
        ).contains(key));
    }
    assert(after.to_set() =~= before.to_set().insert(edge));
}

/// The states that an edge of the list leaves or enters.
pub fn edge_states(list: &Vec<Edge>) -> (states: BTreeSet<State>)
    ensures
        forall|state: State|
            states@.contains(state) <==> exists|edge: Edge| #[trigger]
                list@.to_set().contains(edge) && (edge.0 == state || edge.2 == state),
{
    let mut states: BTreeSet<State> = BTreeSet::new();
    let mut i: usize = 0;
    while i < list.len()
        invariant
            i <= list.len(),
            forall|state: State|
                states@.contains(state) <==> exists|j: int|
                    0 <= j < i && ((#[trigger] list@[j]).0 == state || list@[j].2 == state),
        decreases list.len() - i,
    {
        states.insert(list[i].0);
        states.insert(list[i].2);
        i += 1;
    }
    proof {
        assert forall|state: State|
            states@.contains(state) <==> exists|edge: Edge| #[trigger]
                list@.to_set().contains(edge) && (edge.0 == state || edge.2 == state) by {
            if states@.contains(state) {
                let j = choose|j: int|
                    0 <= j < list@.len() && ((#[trigger] list@[j]).0 == state || list@[j].2
                        == state);
                assert(list@.to_set().contains(list@[j]));
            }
            if exists|edge: Edge| #[trigger]
                list@.to_set().contains(edge) && (edge.0 == state || edge.2 == state) {
                let edge = choose|edge: Edge| #[trigger]
                    list@.to_set().contains(edge) && (edge.0 == state || edge.2 == state);
                let j = choose|j: int| 0 <= j < list@.len() && list@[j] == edge;
            }
        }
    }
    states
}

/// A character put at its place keeps the characters in step with their
/// keys.
proof fn lemma_symbol_placed(
    before: Seq<char>,
    keys_before: Seq<Key>,
    after: Seq<char>,
    keys_after: Seq<Key>,
    symbol: char,
    place: int,
    fresh: bool,
)
    requires
        keys_before.len() == before.len(),
        forall|j: int|
            0 <= j < keys_before.len() ==> (#[trigger] keys_before[j]) == (
                0usize,
                before[j] as u32,
                0usize,
            ),
        0 <= place <= before.len(),
        fresh == !keys_before.contains((0usize, symbol as u32, 0usize)),
        fresh ==> keys_after == keys_before.insert(place, (0usize, symbol as u32, 0usize)) && after
            == before.insert(place, symbol),
        !fresh ==> keys_after == keys_before && after == before,
    ensures
        keys_after.len() == after.len(),
        forall|j: int|
            0 <= j < keys_after.len() ==> (#[trigger] keys_after[j]) == (
                0usize,
                after[j] as u32,
                0usize,
            ),
        forall|other: char| after.contains(other) <==> before.contains(other) || other == symbol,
{
    let key = (0usize, symbol as u32, 0usize);
    lemma_char_code(symbol);
    assert forall|other: char| after.contains(other) <==> before.contains(other) || other
        == symbol by {
        lemma_char_code(other);
        if fresh {
            if after.contains(other) {
                let j = choose|j: int| 0 <= j < after.len() && after[j] == other;
                if j < place {
                    assert(before[j] == other);
                } else if j > place {
                    assert(before[j - 1] == other);
                }
            }
            if before.contains(other) {
                let j = choose|j: int| 0 <= j < before.len() && before[j] == other;
                if j < place {
                    assert(after[j] == other);
                } else {
                    assert(after[j + 1] == other);
                }
            }
            if other == symbol {
                assert(after[place] == symbol);
            }
        } else {
            if other == symbol {
                let j = choose|j: int| 0 <= j < keys_before.len() && keys_before[j] == key;
                lemma_char_code(before[j]);
                assert(before[j] == symbol);
            }
        }
    }
}

/// A nondeterministic automaton with epsilon edges.
///
/// The transition table maps a state and a label to the set of states that
/// the label leads to; no set in it is empty.
#[derive(Debug, Clone, PartialEq, Eq)]
pub struct Automata {
    start_state: State,
    final_states: BTreeSet<State>,
    transitions: BTreeMap<(State, Option<u32>), BTreeSet<State>>,
}

/// Whether the table entry `key`, `targets` holds the edge.
spec fn entry_holds(key: (State, Option<u32>), targets: BTreeSet<State>, edge: Edge) -> bool {
    key.0 == edge.0 && key.1 == label_code(edge.1) && targets@.contains(edge.2)
}

/// The edges that a transition table holds.
spec fn table_edges(table: Map<(State, Option<u32>), BTreeSet<State>>) -> Set<Edge> {
    Set::new(
        |edge: Edge|
            table.contains_key((edge.0, label_code(edge.1))) && table[(
                edge.0,
                label_code(edge.1),
            )]@.contains(edge.2),
    )
}

/// Every key of the table stands for a label, and no entry is empty.
spec fn table_wf(table: Map<(State, Option<u32>), BTreeSet<State>>) -> bool {
    forall|key: (State, Option<u32>)| #[trigger]
        table.contains_key(key) ==> (key.1 matches Some(code) ==> is_char_code(code)) && (exists|
            to: State,
        |
            table[key]@.contains(to))
}

impl View for Automata {
    type V = Nfa;

    closed spec fn view(&self) -> Nfa {
        Nfa {
            start: self.start_state,
            finals: self.final_states@,
            edges: table_edges(self.transitions@),
        }
    }
}

impl Automata {
    /// The representation invariant.
    pub closed spec fn wf(&self) -> bool {
        &&& table_wf(self.transitions@)
        &&& table_edges(self.transitions@).finite()
        &&& self.final_states@.finite()
    }

    /// A well-formed automaton has finitely many final states and edges.
    pub proof fn lemma_wf_finite(&self)
        requires
            self.wf(),
        ensures
            self@.finals.finite(),
            self@.edges.finite(),
    {
    }

    pub fn new(start_state: State) -> (automata: Self)
        ensures
            automata.wf(),
            automata@ == Nfa::empty(start_state),
    {
        let automata = Self {
            start_state,
            final_states: BTreeSet::new(),
            transitions: BTreeMap::new(),
        };
        assert(automata@.edges =~= Set::<Edge>::empty());
        automata
    }

    pub fn start_state(&self) -> (state: State)
        ensures
            state == self@.start,
    {
        self.start_state
    }

    pub fn final_states(&self) -> (states: &BTreeSet<State>)
        ensures
            states@ == self@.finals,
    {
        &self.final_states
    }

    pub fn add_final_state(&mut self, state: State)
        requires
            old(self).wf(),
        ensures
            final(self).wf(),
            final(self)@ == old(self)@.add_final(state),
    {
        self.final_states.insert(state);
    }

    /// Leaves the automaton without final states.
    pub fn clear_final_states(&mut self)
        requires
            old(self).wf(),
        ensures
            final(self).wf(),
            final(self)@ == (Nfa { finals: Set::empty(), ..old(self)@ }),
    {
        self.final_states.clear();
    }

    pub fn add_transition(&mut self, state: State, symbol: TransitionType, dest: State)
        requires
            old(self).wf(),
        ensures
            final(self).wf(),
            final(self)@ == old(self)@.add_edge(state, symbol, dest),
    {
        let key = (state, encode(symbol));
        let ghost before = self.transitions@;
        let mut targets = match self.transitions.remove(&key) {
            Some(targets) => targets,
            None => BTreeSet::new(),
        };
        targets.insert(dest);
        self.transitions.insert(key, targets);
        proof {
            let after = self.transitions@;
            assert(after[key]@.contains(dest));
            assert forall|other: (State, Option<u32>)| #[trigger]
                after.contains_key(other) implies (other.1 matches Some(code) ==> is_char_code(
                code,
            )) && exists|to: State| after[other]@.contains(to) by {
                if other != key {
                    assert(before.contains_key(other));
                    let to = choose|to: State| before[other]@.contains(to);
                    assert(after[other]@.contains(to));
                }
            }
            assert forall|edge: Edge|
                table_edges(after).contains(edge) <==> table_edges(before).insert(
                    (state, symbol, dest),
                ).contains(edge) by {
                if label_code(edge.1) == label_code(symbol) {
                    lemma_label_code_injective(edge.1, symbol);
                }
            }
            assert(table_edges(after) =~= table_edges(before).insert((state, symbol, dest)));
        }
    }

    /// The states that `transition` leads to from `state`, if any.
    pub fn next_state(&self, state: State, transition: TransitionType) -> (targets: Option<
        &BTreeSet<State>,
    >)
        requires
            self.wf(),
        ensures
            targets is Some <==> self@.has_key(state, transition),
            targets matches Some(set) ==> set@ == self@.targets(state, transition),
    {
        let key = (state, encode(transition));
        let targets = self.transitions.get(&key);
        proof {
            if self.transitions@.contains_key(key) {
                let to = choose|to: State| self.transitions@[key]@.contains(to);
                assert(self@.edges.contains((state, transition, to)));
                assert(self.transitions@[key]@ =~= self@.targets(state, transition));
            }
        }
        targets
    }

    /// The states: the start state, the final states and the states that
    /// some edge leaves or enters.
    pub fn states(&self) -> (states: BTreeSet<State>)
        requires
            self.wf(),
        ensures
            states@ == self@.states(),
    {
        let list = self.edges();
        let mut states = edge_states(&list);
        assert(states@ =~= self@.edge_ends());
        insert_all(&mut states, &self.final_states);
        states.insert(self.start_state);
        states
    }

    /// The characters that label some edge, in the order of their code
    /// points, each once.
    pub fn alphabet(&self) -> (symbols: Vec<char>)
        requires
            self.wf(),
        ensures
            symbols@.to_set() == self@.alphabet(),
            increasing(symbols@),
    {
        let list = self.listed_edges();
        let mut symbols: Vec<char> = Vec::new();
        let mut keys: Vec<Key> = Vec::new();
        let mut i: usize = 0;
        while i < list.len()
            invariant
                i <= list.len(),
                ascending(keys@),
                keys@.len() == symbols@.len(),
                forall|j: int|
                    0 <= j < keys@.len() ==> (#[trigger] keys@[j]) == (
                        0usize,
                        symbols@[j] as u32,
                        0usize,
                    ),
                forall|symbol: char|
                    symbols@.contains(symbol) <==> exists|j: int|
                        0 <= j < i && (#[trigger] list@[j]).1 == TransitionType::Symbol(symbol),
            decreases list.len() - i,
        {
            if let TransitionType::Symbol(symbol) = list[i].1 {
                let ghost before = symbols@;
                let ghost keys_before = keys@;
                let (place, fresh) = insert_ascending(&mut keys, (0, symbol as u32, 0));
                if fresh {
                    symbols.insert(place, symbol);
                }
                proof {
                    lemma_symbol_placed(
                        before,
                        keys_before,
                        symbols@,
                        keys@,
                        symbol,
                        place as int,
                        fresh,
                    );
                }
            }
            i += 1;
        }
        proof {
            assert forall|symbol: char| symbols@.to_set().contains(symbol)
                <==> self@.alphabet().contains(symbol) by {
                if symbols@.contains(symbol) {
                    let j = choose|j: int|
                        0 <= j < list@.len() && (#[trigger] list@[j]).1 == TransitionType::Symbol(
                            symbol,
                        );
                    assert(list@.to_set().contains(list@[j]));
                    assert(self@.edges.contains(
                        (list@[j].0, TransitionType::Symbol(symbol), list@[j].2),
                    ));
                }
                if self@.alphabet().contains(symbol) {
                    lemma_char_code(symbol);
                    let (from, to) = choose|from: State, to: State|
                        self@.edges.contains((from, TransitionType::Symbol(symbol), to));
                    let edge = (from, TransitionType::Symbol(symbol), to);
                    assert(list@.to_set().contains(edge));
                    let j = choose|j: int| 0 <= j < list@.len() && list@[j] == edge;
                    assert(list@[j].1 == TransitionType::Symbol(symbol));
                }
            }
            assert(symbols@.to_set() =~= self@.alphabet());
            assert forall|a: int, b: int| 0 <= a < b < symbols@.len() implies (
            #[trigger] symbols@[a] as u32) < (#[trigger] symbols@[b] as u32) by {
                assert(key_lt(keys@[a], keys@[b]));
            }
        }
        symbols
    }

    /// The states that epsilon edges alone lead to from `states`.
    pub fn eclosure(&self, states: BTreeSet<State>) -> (closure: BTreeSet<State>)
        requires
            self.wf(),
        ensures
            closure@ == self@.eclosure(states@),
    {
        let mut work: Vec<State> = set_items(&states);
        let mut out: BTreeSet<State> = BTreeSet::new();
        let ghost universe = states@.union(self@.states());
        let ghost closed = self@.eclosure(states@);
        proof {
            self.lemma_wf_finite();
            lemma_states_finite(self@);
            lemma_eclosure_closed(self@, states@);
        }
        while work.len() > 0
            invariant
                self.wf(),
                universe == states@.union(self@.states()),
                universe.finite(),
                closed == self@.eclosure(states@),
                self@.eps_closed(closed),
                out@.subset_of(universe),
                out@.subset_of(closed),
                forall|i: int| 0 <= i < work@.len() ==> universe.contains(#[trigger] work@[i]),
                forall|i: int| 0 <= i < work@.len() ==> closed.contains(#[trigger] work@[i]),
                forall|state: State| #[trigger]
                    states@.contains(state) ==> out@.contains(state) || work@.contains(state),
                forall|from: State, to: State|
                    out@.contains(from) && #[trigger] self@.edges.contains(
                        (from, TransitionType::Epsilon, to),
                    ) ==> work@.contains(from) || out@.contains(to),
            decreases 2 * universe.difference(out@).len() + work@.len(),
        {
            let ghost work_before = work@;
            let ghost out_before = out@;
            let state = work.pop().unwrap();
            out.insert(state);
            proof {
                assert(work_before[work_before.len() - 1] == state);
                if !out_before.contains(state) {
                    assert(universe.difference(out@) =~= universe.difference(out_before).remove(
                        state,
                    ));
                } else {
                    assert(out@ =~= out_before);
                }
                assert forall|other: State| work_before.contains(other) && other
                    != state implies work@.contains(other) by {
                    let i = choose|i: int| 0 <= i < work_before.len() && work_before[i] == other;
                    assert(work@[i] == other);
                }
            }
            let ghost bound = 2 * universe.difference(out_before).len() + work_before.len();
            if let Some(dest_states) = self.next_state(state, TransitionType::Epsilon) {
                let dests = set_items(dest_states);
                let mut j: usize = 0;
                while j < dests.len()
                    invariant
                        j <= dests.len(),
                        dests@.to_set() == self@.targets(state, TransitionType::Epsilon),
                        universe == states@.union(self@.states()),
                        universe.finite(),
                        self@.eps_closed(closed),
                        closed.contains(state),
                        out@.contains(state),
                        out@.subset_of(universe),
                        out@.subset_of(closed),
                        forall|i: int|
                            0 <= i < work@.len() ==> universe.contains(#[trigger] work@[i]),
                        forall|i: int|
                            0 <= i < work@.len() ==> closed.contains(#[trigger] work@[i]),
                        forall|other: State| #[trigger]
                            states@.contains(other) ==> out@.contains(other) || work@.contains(
                                other,
                            ),
                        forall|from: State, to: State|
                            out@.contains(from) && from != state && #[trigger] self@.edges.contains(
                                (from, TransitionType::Epsilon, to),
                            ) ==> work@.contains(from) || out@.contains(to),
                        forall|k: int| 0 <= k < j ==> out@.contains(#[trigger] dests@[k]),
                        2 * universe.difference(out@).len() + work@.len() < bound,
                    decreases dests.len() - j,
                {
                    let dest = dests[j];
                    let ghost out_mid = out@;
                    let ghost work_mid = work@;
                    proof {
                        assert(dests@.to_set().contains(dest));
                        assert(self@.edges.contains((state, TransitionType::Epsilon, dest)));
                        assert(self@.states().contains(dest));
                    }
                    if out.insert(dest) {
                        work.push(dest);
                        proof {
                            assert(universe.difference(out@) =~= universe.difference(
                                out_mid,
                            ).remove(dest));
                            assert forall|other: State|
                                work_mid.contains(other) implies work@.contains(other) by {
                                let i = choose|i: int|
                                    0 <= i < work_mid.len() && work_mid[i] == other;
                                assert(work@[i] == other);
                            }
                            assert(work@[work_mid.len() as int] == dest);
                        }
                    } else {
                        assert(out@ =~= out_mid);
                    }
                    j += 1;
                }
                proof {
                    assert forall|to: State| #[trigger]
                        self@.edges.contains(
                            (state, TransitionType::Epsilon, to),
                        ) implies out@.contains(to) by {
                        assert(dests@.to_set().contains(to));
                        let k = choose|k: int| 0 <= k < dests@.len() && dests@[k] == to;
                    }
                }
            } else {
                proof {
                    assert forall|to: State| #[trigger]
                        self@.edges.contains(
                            (state, TransitionType::Epsilon, to),
                        ) implies out@.contains(to) by {
                        assert(self@.has_key(state, TransitionType::Epsilon));
                    }
                }
            }
        }
        proof {
            assert forall|state: State| states@.contains(state) implies out@.contains(state) by {
                if work@.contains(state) {
                    let i = choose|i: int| 0 <= i < work@.len() && work@[i] == state;
                }
            }
            assert forall|from: State, to: State|
                out@.contains(from) && self@.edges.contains(
                    (from, TransitionType::Epsilon, to),
                ) implies out@.contains(to) by {
                if work@.contains(from) {
                    let i = choose|i: int| 0 <= i < work@.len() && work@[i] == from;
                }
            }
            lemma_eclosure_least(self@, states@, out@);
            assert(out@ =~= closed);
        }
        out
    }

    /// The states that one step under `transition` leads to from `states`.
    pub fn delta(&self, states: &BTreeSet<State>, transition: TransitionType) -> (targets:
        BTreeSet<State>)
        requires
            self.wf(),
        ensures
            targets@ == self@.delta(states@, transition),
    {
        let items = set_items(states);
        let mut targets: BTreeSet<State> = BTreeSet::new();
        let mut i: usize = 0;
        while i < items.len()
            invariant
                i <= items.len(),
                self.wf(),
                targets@ == self@.delta(items@.take(i as int).to_set(), transition),
            decreases items.len() - i,
        {
            let ghost before = items@.take(i as int).to_set();
            proof {
                items@.lemma_take_succ_push(i as int);
                items@.take(i as int).lemma_push_to_set_commute(items@[i as int]);
            }
            if let Some(found) = self.next_state(items[i], transition) {
                insert_all(&mut targets, found);
            }
            proof {
                let state = items@[i as int];
                lemma_delta_insert(self@, before, state, transition);
                if !self@.has_key(state, transition) {
                    assert(self@.targets(state, transition) =~= Set::<State>::empty());
                }
            }
            i += 1;
        }
        assert(items@.take(items@.len() as int) == items@);
        targets
    }

    /// Adds the final states and the edges of `automata`.
    pub fn merge_automata(&mut self, automata: Automata)
        requires
            old(self).wf(),
            automata.wf(),
        ensures
            final(self).wf(),
            final(self)@ == old(self)@.merge(automata@),
    {
        let list = automata.edges();
        let ghost start = self@;
        insert_all(&mut self.final_states, &automata.final_states);
        proof {
            lemma_finite(&automata.final_states);
        }
        let mut i: usize = 0;
        while i < list.len()
            invariant
                i <= list.len(),
                self.wf(),
                self@.start == start.start,
                self@.finals == start.finals.union(automata@.finals),
                self@.edges == start.edges.union(list@.take(i as int).to_set()),
            decreases list.len() - i,
        {
            proof {
                list@.lemma_take_succ_push(i as int);
                list@.take(i as int).lemma_push_to_set_commute(list@[i as int]);
            }
            let (state, symbol, dest) = list[i];
            self.add_transition(state, symbol, dest);
            assert(self@.edges =~= start.edges.union(list@.take(i + 1).to_set()));
            i += 1;
        }
        assert(list@.take(list@.len() as int) == list@);
    }

    /// Removes the edges that leave `target`.
    pub fn remove_state(&mut self, target: State)
        requires
            old(self).wf(),
        ensures
            final(self).wf(),
            final(self)@ == old(self)@.without_source(target),
    {
        let list = self.edges();
        let ghost start = self@;
        let ghost table = self.transitions@;
        let mut i: usize = 0;
        while i < list.len()
            invariant
                i <= list.len(),
                list@.to_set() == table_edges(table),
                table_wf(table),
                table_edges(table).finite(),
                self.final_states@.finite(),
                self.start_state == start.start,
                self.final_states@ == start.finals,
                forall|key: (State, Option<u32>)| #[trigger]
                    self.transitions@.contains_key(key) ==> table.contains_key(key)
                        && self.transitions@[key] == table[key],
                forall|key: (State, Option<u32>)| #[trigger]
                    table.contains_key(key) ==> (self.transitions@.contains_key(key) <==> !(key.0
                        == target && exists|j: int|
                        0 <= j < i && (#[trigger] list@[j]).0 == target && label_code(list@[j].1)
                            == key.1)),
            decreases list.len() - i,
        {
            if list[i].0 == target {
                let key = (target, encode(list[i].1));
                self.transitions.remove(&key);
            }
            i += 1;
        }
        proof {
            let after = self.transitions@;
            assert forall|edge: Edge| table_edges(after).contains(edge) <==> start.without_source(
                target,
            ).edges.contains(edge) by {
                let key = (edge.0, label_code(edge.1));
                if table_edges(table).contains(edge) && edge.0 == target {
                    assert(list@.to_set().contains(edge));
                    let j = choose|j: int| 0 <= j < list@.len() && list@[j] == edge;
                    assert(list@[j].0 == target && label_code(list@[j].1) == key.1);
                    assert(!after.contains_key(key));
                }
            }
            assert(table_edges(after) =~= start.without_source(target).edges);
            lemma_set_subset_finite(table_edges(table), table_edges(after));
        }
    }

    /// The edges, ordered by start state, then label, then end state, each
    /// once.
    pub fn edges(&self) -> (list: Vec<Edge>)
        requires
            self.wf(),
        ensures
            list@.to_set() == self@.edges,
            in_key_order(list@),
    {
        let listed = self.listed_edges();
        sort_edges(&listed)
    }

    /// The edges as the table holds them.
    fn listed_edges(&self) -> (list: Vec<Edge>)
        requires
            self.wf(),
        ensures
            list@.to_set() == self@.edges,
    {
        let mut list: Vec<Edge> = Vec::new();
        let ghost entries = spec_btree_map_iter(&self.transitions).remaining();
        for entry in it: self.transitions.iter()
            invariant
                it.seq() == entries,
                entries == spec_btree_map_iter(&self.transitions).remaining(),
                self.wf(),
                list@.to_set() == entries_edges(entries, it.index()),
        {
            let ghost at = it.index();
            let ghost done = list@.to_set();
            let (key, targets) = entry;
            assert(self.transitions@.contains_key(*key));
            let label = match key.1 {
                None => TransitionType::Epsilon,
                Some(code) => match symbol_of(code) {
                    Some(symbol) => TransitionType::Symbol(symbol),
                    None => TransitionType::Epsilon,
                },
            };
            assert(label_code(label) == key.1);
            let ghost members = spec_btree_keys_iter(targets).remaining();
            for to in inner: targets.iter()
                invariant
                    inner.seq() == members,
                    list@.to_set() == done.union(
                        members_edges(key.0, label, members, inner.index()),
                    ),
            {
                proof {
                    list@.lemma_push_to_set_commute((key.0, label, *to));
                    assert(members_edges(key.0, label, members, inner.index() + 1)
                        =~= members_edges(key.0, label, members, inner.index()).insert(
                        (key.0, label, *to),
                    ));
                }
                list.push((key.0, label, *to));
            }
            proof {
                assert(members.unref().to_set() == targets@);
                let fresh = members_edges(key.0, label, members, members.len() as int);
                assert forall|edge: Edge| fresh.contains(edge) <==> entry_holds(
                    *key,
                    *targets,
                    edge,
                ) by {
                    if fresh.contains(edge) {
                        let j = choose|j: int|
                            0 <= j < members.len() && edge == (key.0, label, *members[j]);
                        assert(members.unref()[j] == *members[j]);
                        assert(members.unref().to_set().contains(*members[j]));
                    }
                    if entry_holds(*key, *targets, edge) {
                        lemma_label_code_injective(edge.1, label);
                        assert(members.unref().to_set().contains(edge.2));
                        let j = choose|j: int|
                            0 <= j < members.unref().len() && members.unref()[j] == edge.2;
                        assert(edge == (key.0, label, *members[j]));
                    }
                }
                assert(done.union(fresh) =~= entries_edges(entries, at + 1));
            }
        }
        proof {
            let table = self.transitions@;
            assert forall|edge: Edge| list@.to_set().contains(edge) <==> self@.edges.contains(
                edge,
            ) by {
                let key = (edge.0, label_code(edge.1));
                if list@.to_set().contains(edge) {
                    let i = choose|i: int|
                        0 <= i < entries.len() && entry_holds(
                            *(#[trigger] entries[i]).0,
                            *entries[i].1,
                            edge,
                        );
                    assert(table.contains_key(*entries[i].0));
                    assert(table[*entries[i].0] == *entries[i].1);
                }
                if self@.edges.contains(edge) {
                    assert(table.contains_key(key));
                    assert(entries.contains((&key, &table[key])));
                    let i = choose|i: int|
                        0 <= i < entries.len() && entries[i] == (&key, &table[key]);
                    assert(entry_holds(*entries[i].0, *entries[i].1, edge));
                }
            }
            assert(list@.to_set() =~= self@.edges);
        }
        list
    }
}

/// The edges that the first `count` entries of a table hold.
spec fn entries_edges(
    entries: Seq<(&(State, Option<u32>), &BTreeSet<State>)>,
    count: int,
) -> Set<Edge> {
    Set::new(
        |edge: Edge|
            exists|i: int|
                0 <= i < count && entry_holds(*(#[trigger] entries[i]).0, *entries[i].1, edge),
    )
}

/// The edges from `from` under `label` to the first `count` of `members`.
spec fn members_edges(from: State, label: TransitionType, members: Seq<&State>, count: int) -> Set<
    Edge,
> {
    Set::new(
        |edge: Edge| exists|j: int| 0 <= j < count && edge == (from, label, *#[trigger] members[j]),
    )
}

/// The mathematical model of a deterministic automaton: from a state, a
/// character leads to at most one state.
#[verifier::ext_equal]
pub struct DfaModel {
    pub start: State,
    pub finals: Set<State>,
    pub moves: Map<(State, char), State>,
}

impl DfaModel {
    /// The state that `symbol` leads to from `state`, if any.
    pub open spec fn step(self, state: State, symbol: char) -> Option<State> {
        if self.moves.contains_key((state, symbol)) {
            Some(self.moves[(state, symbol)])
        } else {
            None
        }
    }

    /// The state reached from the start by reading `text`; none where a
    /// move is missing on the way.
    pub open spec fn state_after(self, text: Seq<char>) -> Option<State>
        decreases text.len(),
    {
        if text.len() == 0 {
            Some(self.start)
        } else {
            match self.state_after(text.drop_last()) {
                Some(state) => self.step(state, text.last()),
                None => None,
            }
        }
    }

    /// Whether reading the whole of `text` from the start ends in a final
    /// state.
    pub open spec fn accepts(self, text: Seq<char>) -> bool {
        self.state_after(text) matches Some(state) && self.finals.contains(state)
    }

    /// The same automaton, as a set of edges.
    pub open spec fn as_nfa(self) -> Nfa {
        Nfa {
            start: self.start,
            finals: self.finals,
            edges: Set::new(
                |edge: Edge|
                    edge.1 matches TransitionType::Symbol(symbol) && self.step(edge.0, symbol)
                        == Some(edge.2),
            ),
        }
    }
}

/// Whether the table of a deterministic automaton holds the edge.
spec fn moves_along(table: Map<(State, u32), State>, edge: Edge) -> bool {
    edge.1 matches TransitionType::Symbol(symbol) && table.contains_key(
        (edge.0, symbol as u32),
    ) && table[(edge.0, symbol as u32)] == edge.2
}

/// Whether no edge is an epsilon edge and no two edges leave one state under
/// one character.
pub open spec fn deterministic(nfa: Nfa) -> bool {
    &&& (forall|edge: Edge| #[trigger] nfa.edges.contains(edge) ==> edge.1 is Symbol)
    &&& (forall|first: Edge, second: Edge|
        #[trigger] nfa.edges.contains(first) && #[trigger] nfa.edges.contains(second) && first.0
            == second.0 && first.1 == second.1 ==> first.2 == second.2)
}

/// Once a move is missing, no longer text is read to its end.
pub proof fn lemma_stuck_stays_stuck(dfa: DfaModel, text: Seq<char>, read: int)
    requires
        0 <= read <= text.len(),
        dfa.state_after(text.take(read)) is None,
    ensures
        dfa.state_after(text) is None,
    decreases text.len() - read,
{
    if read < text.len() {
        assert(text.take(read + 1).drop_last() == text.take(read));
        lemma_stuck_stays_stuck(dfa, text, read + 1);
    } else {
        assert(text.take(read) == text);
    }
}

/// A deterministic automaton without epsilon edges.
#[derive(Debug, Clone)]
pub struct Dfa {
    start_state: State,
    final_states: BTreeSet<State>,
    transitions: BTreeMap<(State, u32), State>,
}

impl View for Dfa {
    type V = DfaModel;

    closed spec fn view(&self) -> DfaModel {
        DfaModel {
            start: self.start_state,
            finals: self.final_states@,
            moves: Map::new(
                |key: (State, char)| self.transitions@.contains_key((key.0, key.1 as u32)),
                |key: (State, char)| self.transitions@[(key.0, key.1 as u32)],
            ),
        }
    }
}

impl Dfa {
    /// The representation invariant.
    pub closed spec fn wf(&self) -> bool {
        forall|key: (State, u32)| #[trigger]
            self.transitions@.contains_key(key) ==> is_char_code(key.1)
    }

    fn next_state(&self, state: State, transition: TransitionType) -> (next: Option<State>)
        ensures
            next == (match transition {
                TransitionType::Epsilon => None,
                TransitionType::Symbol(symbol) => self@.step(state, symbol),
            }),
    {
        match transition {
            TransitionType::Epsilon => None,
            TransitionType::Symbol(symbol) => {
                let key = (state, symbol as u32);
                match self.transitions.get(&key) {
                    Some(next) => Some(*next),
                    None => None,
                }
            },
        }
    }

    /// The deterministic automaton with the start state, the final states
    /// and the edges of `automata`.
    pub(crate) fn lower(automata: &Automata) -> (dfa: Dfa)
        requires
            automata.wf(),
            deterministic(automata@),
        ensures
            dfa.wf(),
            dfa@.as_nfa() == automata@,
    {
        let list = automata.edges();
        let mut transitions: BTreeMap<(State, u32), State> = BTreeMap::new();
        let mut i: usize = 0;
        while i < list.len()
            invariant
                i <= list.len(),
                list@.to_set() == automata@.edges,
                deterministic(automata@),
                forall|key: (State, u32)| #[trigger]
                    transitions@.contains_key(key) ==> is_char_code(key.1) && exists|j: int|
                        0 <= j < i && (#[trigger] list@[j]).0 == key.0 && label_code(list@[j].1)
                            == Some(key.1) && list@[j].2 == transitions@[key],
                forall|j: int| 0 <= j < i ==> moves_along(transitions@, #[trigger] list@[j]),
            decreases list.len() - i,
        {
            let (from, label, to) = list[i];
            assert(list@.to_set().contains(list@[i as int]));
            assert(automata@.edges.contains(list@[i as int]));
            if let TransitionType::Symbol(symbol) = label {
                let ghost before = transitions@;
                transitions.insert((from, symbol as u32), to);
                proof {
                    lemma_char_code(symbol);
                    assert forall|j: int| 0 <= j < i implies moves_along(
                        transitions@,
                        #[trigger] list@[j],
                    ) by {
                        assert(moves_along(before, list@[j]));
                        assert(list@.to_set().contains(list@[j]));
                        let other = list@[j].1->Symbol_0;
                        if list@[j].0 == from && other as u32 == symbol as u32 {
                            lemma_label_code_injective(list@[j].1, label);
                        }
                    }
                    assert forall|key: (State, u32)| #[trigger]
                        transitions@.contains_key(key) implies is_char_code(key.1) && exists|
                        j: int,
                    |
                        0 <= j < i + 1 && (#[trigger] list@[j]).0 == key.0 && label_code(
                            list@[j].1,
                        ) == Some(key.1) && list@[j].2 == transitions@[key] by {
                        if key == (from, symbol as u32) {
                            assert(list@[i as int].0 == key.0);
                        } else {
                            assert(before.contains_key(key));
                            let j = choose|j: int|
                                0 <= j < i && (#[trigger] list@[j]).0 == key.0 && label_code(
                                    list@[j].1,
                                ) == Some(key.1) && list@[j].2 == before[key];
                            assert(list@[j].0 == key.0);
                        }
                    }
                }
            }
            i += 1;
        }
        let final_states = automata.final_states().clone();
        let dfa = Dfa { start_state: automata.start_state(), final_states, transitions };
        proof {
            assert forall|edge: Edge| dfa@.as_nfa().edges.contains(edge)
                <==> automata@.edges.contains(edge) by {
                if let TransitionType::Symbol(symbol) = edge.1 {
                    lemma_char_code(symbol);
                    let key = (edge.0, symbol as u32);
                    if dfa@.as_nfa().edges.contains(edge) {
                        assert(transitions@.contains_key(key));
                        let j = choose|j: int|
                            0 <= j < list@.len() && (#[trigger] list@[j]).0 == key.0
                                && label_code(list@[j].1) == Some(key.1) && list@[j].2
                                == transitions@[key];
                        lemma_label_code_injective(list@[j].1, edge.1);
                        assert(list@.to_set().contains(list@[j]));
                    }
                    if automata@.edges.contains(edge) {
                        assert(list@.to_set().contains(edge));
                        let j = choose|j: int| 0 <= j < list@.len() && list@[j] == edge;
                        assert(list@[j].1 == edge.1);
                    }
                }
            }
            assert(dfa@.as_nfa() =~= automata@);
        }
        dfa
    }

    /// Whether the automaton accepts the whole of `text`.
    pub fn validate_str(&self, text: &str) -> (accepted: bool)
        ensures
            accepted == self@.accepts(text@),
    {
        let mut state = self.start_state;
        let ghost symbols = text@;
        for symbol in it: text.chars()
            invariant
                it.seq() == symbols,
                symbols == text@,
                self@.state_after(symbols.take(it.index())) == Some(state),
        {
            proof {
                assert(symbols.take(it.index() + 1).drop_last() == symbols.take(it.index()));
            }
            match self.next_state(state, TransitionType::Symbol(symbol)) {
                Some(next) => {
                    state = next;
                },
                None => {
                    proof {
                        lemma_stuck_stays_stuck(self@, symbols, it.index() + 1);
                    }
                    return false;
                },
            }
        }
        proof {
            assert(symbols.take(symbols.len() as int) == symbols);
        }
        self.final_states.contains(&state)
    }

    pub fn start_state(&self) -> (state: State)
        ensures
            state == self@.start,
    {
        self.start_state
    }

    pub fn final_states(&self) -> (states: &BTreeSet<State>)
        ensures
            states@ == self@.finals,
    {
        &self.final_states
    }

    /// The states: the start state, the final states and the states that
    /// some edge leaves or enters.
    pub fn states(&self) -> (states: BTreeSet<State>)
        requires
            self.wf(),
        ensures
            states@ == self@.as_nfa().states(),
    {
        let list = self.edges();
        let mut states = edge_states(&list);
        assert(states@ =~= self@.as_nfa().edge_ends());
        insert_all(&mut states, &self.final_states);
        states.insert(self.start_state);
        states
    }

    /// The edges, ordered by start state, then character, each once.
    pub fn edges(&self) -> (list: Vec<Edge>)
        requires
            self.wf(),
        ensures
            list@.to_set() == self@.as_nfa().edges,
            in_key_order(list@),
    {
        let listed = self.listed_edges();
        sort_edges(&listed)
    }

    /// The edges as the table holds them.
    fn listed_edges(&self) -> (list: Vec<Edge>)
        requires
            self.wf(),
        ensures
            list@.to_set() == self@.as_nfa().edges,
    {
        let mut list: Vec<Edge> = Vec::new();
        let ghost entries = spec_btree_map_iter(&self.transitions).remaining();
        for entry in it: self.transitions.iter()
            invariant
                it.seq() == entries,
                entries == spec_btree_map_iter(&self.transitions).remaining(),
                self.wf(),
                list@.to_set() == moves_edges(entries, it.index()),
        {
            let ghost at = it.index();
            let (key, to) = entry;
            assert(self.transitions@.contains_key(*key));
            let label = match symbol_of(key.1) {
                Some(symbol) => TransitionType::Symbol(symbol),
                None => TransitionType::Epsilon,
            };
            proof {
                list@.lemma_push_to_set_commute((key.0, label, *to));
                assert(is_char_code(key.1));
                assert(label_code(label) == Some(key.1));
                assert(*entries[at].0 == *key && *entries[at].1 == *to);
                lemma_moves_edges_step(entries, at, label);
            }
            list.push((key.0, label, *to));
        }
        proof {
            let table = self.transitions@;
            assert forall|edge: Edge| list@.to_set().contains(edge)
                <==> self@.as_nfa().edges.contains(edge) by {
                if list@.to_set().contains(edge) {
                    let i = choose|i: int|
                        0 <= i < entries.len() && move_holds(
                            *(#[trigger] entries[i]).0,
                            *entries[i].1,
                            edge,
                        );
                    assert(table.contains_key(*entries[i].0));
                    assert(table[*entries[i].0] == *entries[i].1);
                    let symbol = edge.1->Symbol_0;
                    assert(*entries[i].0 == (edge.0, symbol as u32));
                }
                if self@.as_nfa().edges.contains(edge) {
                    let symbol = edge.1->Symbol_0;
                    lemma_char_code(symbol);
                    let key = (edge.0, symbol as u32);
                    assert(table.contains_key(key));
                    assert(entries.contains((&key, &table[key])));
                    let i = choose|i: int|
                        0 <= i < entries.len() && entries[i] == (&key, &table[key]);
                    assert(move_holds(*entries[i].0, *entries[i].1, edge));
                }
            }
            assert(list@.to_set() =~= self@.as_nfa().edges);
        }
        list
    }
}

/// Whether the table entry `key`, `to` of a deterministic automaton is the
/// edge.
spec fn move_holds(key: (State, u32), to: State, edge: Edge) -> bool {
    key.0 == edge.0 && label_code(edge.1) == Some(key.1) && to == edge.2
}

/// One more entry is one more edge.
proof fn lemma_moves_edges_step(
    entries: Seq<(&(State, u32), &State)>,
    at: int,
    label: TransitionType,
)
    requires
        0 <= at < entries.len(),
        label_code(label) == Some(entries[at].0.1),
    ensures
        moves_edges(entries, at + 1) == moves_edges(entries, at).insert(
            (entries[at].0.0, label, *entries[at].1),
        ),
{
    let added = (entries[at].0.0, label, *entries[at].1);
    assert(move_holds(*entries[at].0, *entries[at].1, added));
    assert forall|edge: Edge|
        moves_edges(entries, at + 1).contains(edge) <==> moves_edges(entries, at).insert(
            added,
        ).contains(edge) by {
        if move_holds(*entries[at].0, *entries[at].1, edge) {
            lemma_label_code_injective(edge.1, label);
            assert(edge == added);
        }
        if moves_edges(entries, at + 1).contains(edge) {
            let i = choose|i: int|
                0 <= i < at + 1 && move_holds(*(#[trigger] entries[i]).0, *entries[i].1, edge);
            if i < at {
                assert(moves_edges(entries, at).contains(edge));
            }
        }
        if moves_edges(entries, at).contains(edge) {
            let i = choose|i: int|
                0 <= i < at && move_holds(*(#[trigger] entries[i]).0, *entries[i].1, edge);
            assert(moves_edges(entries, at + 1).contains(edge));
        }
    }
    assert(moves_edges(entries, at + 1) =~= moves_edges(entries, at).insert(added));
}

/// The edges that the first `count` entries of the table of a deterministic
/// automaton are.
spec fn moves_edges(entries: Seq<(&(State, u32), &State)>, count: int) -> Set<Edge> {
    Set::new(
        |edge: Edge|
            exists|i: int|
                0 <= i < count && move_holds(*(#[trigger] entries[i]).0, *entries[i].1, edge),
    )
}

} // verus!

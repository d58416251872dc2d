//! Inspection of an automaton: its states and transitions, and its graph
//! with named nodes and labelled edges.

use crate::automata::{
    edge_key, in_key_order, label_rank, lemma_char_code, lemma_edge_key_injective, sort_edges,
    Automata, Dfa, Edge, Nfa, State, TransitionType,
};
use crate::order::{ascending, insert_ascending, key_lt, Key};
use crate::parser::{decimal, decimal_text};
use crate::sets::set_items;
use std::collections::BTreeSet;
use vstd::prelude::*;
use vstd::string::StringExecFns;

verus! {

broadcast use vstd::laws_cmp::group_laws_cmp;

/// An entry of a transition table: a state and a label, and the states that
/// the label leads to from the state.
pub type Entry = ((State, TransitionType), BTreeSet<State>);

/// The key by which an entry is ordered: its state, then its label.
pub open spec fn entry_key(entry: Entry) -> Key {
    (entry.0.0, label_rank(entry.0.1), 0usize)
}

/// The keys of the entries.
pub open spec fn entry_keys(table: Seq<Entry>) -> Seq<Key> {
    Seq::new(table.len(), |i: int| entry_key(table[i]))
}

/// The states that the label leads to from the state along the edges.
pub open spec fn targets_in(edges: Set<Edge>, from: State, label: TransitionType) -> Set<State> {
    Set::new(|to: State| edges.contains((from, label, to)))
}

/// Whether the table is the transition table of the edges: one entry for
/// every state and label that an edge leaves under, in the order of state
/// and label, with all the states that the label leads to.
pub open spec fn tabulates(edges: Set<Edge>, table: Seq<Entry>) -> bool {
    &&& ascending(entry_keys(table))
    &&& (forall|i: int|
        0 <= i < table.len() ==> (#[trigger] table[i]).1@ == targets_in(
            edges,
            table[i].0.0,
            table[i].0.1,
        ) && exists|to: State| edges.contains((table[i].0.0, table[i].0.1, to)))
    &&& (forall|edge: Edge| #[trigger]
        edges.contains(edge) ==> exists|i: int|
            0 <= i < table.len() && (#[trigger] table[i]).0 == (edge.0, edge.1))
}

/// The edges that the entries of a table hold.
pub open spec fn tabled(table: Seq<Entry>) -> Set<Edge> {
    Set::new(
        |edge: Edge|
            exists|i: int|
                0 <= i < table.len() && (#[trigger] table[i]).0 == (edge.0, edge.1)
                    && table[i].1@.contains(edge.2),
    )
}

/// A transition table holds the edges that it is the table of.
pub proof fn lemma_tabled(edges: Set<Edge>, table: Seq<Entry>)
    requires
        tabulates(edges, table),
    ensures
        tabled(table) == edges,
{
    assert forall|edge: Edge| tabled(table).contains(edge) <==> edges.contains(edge) by {
        if edges.contains(edge) {
            let i = choose|i: int|
                0 <= i < table.len() && (#[trigger] table[i]).0 == (edge.0, edge.1);
            assert(table[i].1@.contains(edge.2));
        }
    }
    assert(tabled(table) =~= edges);
}

/// One more edge in the table.
proof fn lemma_tabulate_step(
    edges: Set<Edge>,
    before: Seq<Entry>,
    after: Seq<Entry>,
    edge: Edge,
    place: int,
    fresh: bool,
)
    requires
        tabulates(edges, before),
        0 <= place <= before.len(),
        ascending(entry_keys(after)),
        fresh == !entry_keys(before).contains(edge_key((edge.0, edge.1, 0))),
        fresh ==> after.len() == before.len() + 1 && after[place].0 == (edge.0, edge.1)
            && after[place].1@ == set![edge.2] && (forall|i: int|
            0 <= i < before.len() ==> #[trigger] before[i] == after[if i < place {
                i
            } else {
                i + 1
            }]),
        !fresh ==> place < before.len() && after.len() == before.len() && before[place].0 == (
            edge.0,
            edge.1,
        ) && after[place].0 == (edge.0, edge.1) && after[place].1@ == before[place].1@.insert(
            edge.2,
        ) && (forall|i: int|
            0 <= i < before.len() && i != place ==> #[trigger] before[i] == after[i]),
    ensures
        tabulates(edges.insert(edge), after),
{
    let more = edges.insert(edge);
    let keys = entry_keys(before);
    assert forall|i: int| 0 <= i < after.len() implies (#[trigger] after[i]).1@ == targets_in(
        more,
        after[i].0.0,
        after[i].0.1,
    ) && exists|to: State| more.contains((after[i].0.0, after[i].0.1, to)) by {
        let from = after[i].0.0;
        let label = after[i].0.1;
        if i == place {
            assert(more.contains(edge));
            if fresh {
                assert forall|to: State| !edges.contains((edge.0, edge.1, to)) by {
                    if edges.contains((edge.0, edge.1, to)) {
                        let k = choose|k: int|
                            0 <= k < before.len() && (#[trigger] before[k]).0 == (edge.0, edge.1);
                        assert(keys[k] == edge_key((edge.0, edge.1, 0)));
                    }
                }
                assert(after[i].1@ =~= targets_in(more, from, label));
            } else {
                assert(before[place].1@ == targets_in(edges, from, label));
                assert(after[i].1@ =~= targets_in(more, from, label));
            }
        } else {
            let k = if fresh && i > place {
                i - 1
            } else {
                i
            };
            assert(before[k] == after[i]);
            assert(before[k].1@ == targets_in(edges, from, label));
            let to = choose|to: State| edges.contains((from, label, to));
            assert(more.contains((from, label, to)));
            if (from, label) == (edge.0, edge.1) {
                assert(entry_keys(after)[i] == entry_keys(after)[place]);
                if i < place {
                    assert(key_lt(entry_keys(after)[i], entry_keys(after)[place]));
                } else {
                    assert(key_lt(entry_keys(after)[place], entry_keys(after)[i]));
                }
            }
            assert(after[i].1@ =~= targets_in(more, from, label));
        }
    }
    assert forall|other: Edge| #[trigger] more.contains(other) implies exists|i: int|
        0 <= i < after.len() && (#[trigger] after[i]).0 == (other.0, other.1) by {
        if (other.0, other.1) == (edge.0, edge.1) {
            assert(after[place].0 == (other.0, other.1));
        } else {
            let k = choose|k: int|
                0 <= k < before.len() && (#[trigger] before[k]).0 == (other.0, other.1);
            let i = if fresh && k >= place {
                k + 1
            } else {
                k
            };
            assert(before[k] == after[i]);
            assert(after[i].0 == (other.0, other.1));
        }
    }
}

/// The transition table of the edges of a list.
pub fn group_edges(list: &Vec<Edge>) -> (table: Vec<Entry>)
    ensures
        tabulates(list@.to_set(), table@),
{
    let mut table: Vec<Entry> = Vec::new();
    let mut keys: Vec<Key> = Vec::new();
    let mut i: usize = 0;
    assert(entry_keys(table@) =~= keys@);
    assert(list@.take(0).to_set() =~= Set::<Edge>::empty());
    while i < list.len()
        invariant
            i <= list.len(),
            keys@ == entry_keys(table@),
            tabulates(list@.take(i as int).to_set(), table@),
        decreases list.len() - i,
    {
        let (from, label, to) = list[i];
        let ghost before = table@;
        let rank = match label {
            TransitionType::Epsilon => 0u32,
            TransitionType::Symbol(symbol) => {
                proof {
                    lemma_char_code(symbol);
                }
                symbol as u32 + 1
            },
        };
        let (place, fresh) = insert_ascending(&mut keys, (from, rank, 0));
        if fresh {
            let mut targets: BTreeSet<State> = BTreeSet::new();
            targets.insert(to);
            table.insert(place, ((from, label), targets));
        } else {
            proof {
                lemma_edge_key_injective(
                    (before[place as int].0.0, before[place as int].0.1, 0),
                    (from, label, 0),
                );
            }
            let mut entry = table.remove(place);
            entry.1.insert(to);
            table.insert(place, entry);
        }
        proof {
            assert(entry_keys(table@) =~= keys@);
            list@.lemma_take_succ_push(i as int);
            list@.take(i as int).lemma_push_to_set_commute(list@[i as int]);
            lemma_tabulate_step(
                list@.take(i as int).to_set(),
                before,
                table@,
                (from, label, to),
                place as int,
                fresh,
            );
        }
        i += 1;
    }
    assert(list@.take(list@.len() as int) == list@);
    table
}

/// The edges that the entries of a table hold.
pub fn table_edges(table: &Vec<Entry>) -> (list: Vec<Edge>)
    ensures
        list@.to_set() == tabled(table@),
{
    let mut list: Vec<Edge> = Vec::new();
    let mut i: usize = 0;
    assert(list@.to_set() =~= tabled(table@.take(0)));
    while i < table.len()
        invariant
            i <= table.len(),
            list@.to_set() == tabled(table@.take(i as int)),
        decreases table.len() - i,
    {
        let from = table[i].0.0;
        let label = table[i].0.1;
        let items = set_items(&table[i].1);
        let ghost done = list@.to_set();
        let mut j: usize = 0;
        while j < items.len()
            invariant
                j <= items.len(),
                list@.to_set() == done.union(
                    items@.take(j as int).to_set().map(|to: State| (from, label, to)),
                ),
            decreases items.len() - j,
        {
            proof {
                items@.lemma_take_succ_push(j as int);
                items@.take(j as int).lemma_push_to_set_commute(items@[j as int]);
                items@.take(j as int).to_set().lemma_set_map_insert_commute(
                    items@[j as int],
                    |to: State| (from, label, to),
                );
                list@.lemma_push_to_set_commute((from, label, items@[j as int]));
            }
            list.push((from, label, items[j]));
            j += 1;
        }
        proof {
            assert(items@.take(items@.len() as int) == items@);
            let shorter = table@.take(i as int);
            let longer = table@.take(i + 1);
            let fresh = items@.to_set().map(|to: State| (from, label, to));
            assert forall|edge: Edge| done.union(fresh).contains(edge) <==> tabled(
                longer,
            ).contains(edge) by {
                if fresh.contains(edge) {
                    assert(longer[i as int].0 == (edge.0, edge.1));
                }
                if tabled(shorter).contains(edge) {
                    let k = choose|k: int|
                        0 <= k < shorter.len() && (#[trigger] shorter[k]).0 == (edge.0, edge.1)
                            && shorter[k].1@.contains(edge.2);
                    assert(longer[k] == shorter[k]);
                }
                if tabled(longer).contains(edge) {
                    let k = choose|k: int|
                        0 <= k < longer.len() && (#[trigger] longer[k]).0 == (edge.0, edge.1)
                            && longer[k].1@.contains(edge.2);
                    if k < i {
                        assert(shorter[k] == longer[k]);
                    } else {
                        assert(items@.to_set().contains(edge.2));
                        assert(edge == (from, label, edge.2));
                    }
                }
            }
            assert(done.union(fresh) =~= tabled(longer));
        }
        i += 1;
    }
    assert(table@.take(table@.len() as int) == table@);
    list
}

/// What can be read of an automaton.
pub trait AutomataDebug {
    /// Whether the automaton can be read.
    spec fn inspectable(&self) -> bool;

    /// The automaton that is read.
    spec fn model(&self) -> Nfa;

    fn start_state(&self) -> (state: State)
        requires
            self.inspectable(),
        ensures
            state == self.model().start,
    ;

    fn final_states(&self) -> (states: &BTreeSet<State>)
        requires
            self.inspectable(),
        ensures
            states@ == self.model().finals,
    ;

    fn states(&self) -> (states: BTreeSet<State>)
        requires
            self.inspectable(),
        ensures
            states@ == self.model().states(),
    ;

    fn transitions(&self) -> (table: Vec<Entry>)
        requires
            self.inspectable(),
        ensures
            tabulates(self.model().edges, table@),
    ;
}

impl AutomataDebug for Dfa {
    open spec fn inspectable(&self) -> bool {
        self.wf()
    }

    open spec fn model(&self) -> Nfa {
        self@.as_nfa()
    }

    fn start_state(&self) -> (state: State) {
        Dfa::start_state(self)
    }

    fn final_states(&self) -> (states: &BTreeSet<State>) {
        Dfa::final_states(self)
    }

    fn states(&self) -> (states: BTreeSet<State>) {
        Dfa::states(self)
    }

    fn transitions(&self) -> (table: Vec<Entry>) {
        group_edges(&self.edges())
    }
}

impl AutomataDebug for Automata {
    open spec fn inspectable(&self) -> bool {
        self.wf()
    }

    open spec fn model(&self) -> Nfa {
        self@
    }

    fn start_state(&self) -> (state: State) {
        Automata::start_state(self)
    }

    fn final_states(&self) -> (states: &BTreeSet<State>) {
        Automata::final_states(self)
    }

    fn states(&self) -> (states: BTreeSet<State>) {
        Automata::states(self)
    }

    fn transitions(&self) -> (table: Vec<Entry>) {
        group_edges(&self.edges())
    }
}

/// The text that stands for a label on an edge of the graph.
pub open spec fn label_text(label: TransitionType) -> Seq<char> {
    match label {
        TransitionType::Epsilon => "&epsilon;"@,
        TransitionType::Symbol(symbol) => seq![symbol],
    }
}

/// The name of a state in the graph.
pub open spec fn node_name(state: State) -> Seq<char> {
    "q"@ + decimal(state as nat)
}

/// Whether an edge of the list leads from `from` to `to`.
pub open spec fn connects(list: Seq<Edge>, from: State, to: State) -> bool {
    exists|i: int| 0 <= i < list.len() && (#[trigger] list[i]).0 == from && list[i].2 == to
}

/// The labels of the edges of the list that lead from `from` to `to`, in
/// the order of the list, with a comma and a space between two of them.
pub open spec fn joined_labels(list: Seq<Edge>, from: State, to: State) -> Seq<char>
    decreases list.len(),
{
    if list.len() == 0 {
        Seq::empty()
    } else {
        let before = list.drop_last();
        let last = list.last();
        if last.0 == from && last.2 == to {
            if connects(before, from, to) {
                joined_labels(before, from, to) + ", "@ + label_text(last.1)
            } else {
                label_text(last.1)
            }
        } else {
            joined_labels(before, from, to)
        }
    }
}

/// The graph of an automaton: a named node for every state, and one edge
/// for every two states that an edge joins, labelled with all the labels
/// between them.
pub struct AutomataPrinter {
    nodes: Vec<(usize, String)>,
    edges: Vec<(usize, String, usize)>,
    start_state: State,
    final_states: BTreeSet<State>,
}

/// One more edge joins its two ends, and no others.
proof fn lemma_connects_step(list: Seq<Edge>, count: int, from: State, to: State)
    requires
        0 <= count < list.len(),
    ensures
        connects(list.take(count + 1), from, to) <==> connects(list.take(count), from, to) || (
        list[count].0 == from && list[count].2 == to),
        list.take(count + 1).drop_last() == list.take(count),
        list.take(count + 1).last() == list[count],
{
    let longer = list.take(count + 1);
    let shorter = list.take(count);
    assert(longer.drop_last() =~= shorter);
    if connects(shorter, from, to) {
        let i = choose|i: int|
            0 <= i < shorter.len() && (#[trigger] shorter[i]).0 == from && shorter[i].2 == to;
        assert(longer[i] == shorter[i]);
    }
    if list[count].0 == from && list[count].2 == to {
        assert(longer[count] == list[count]);
    }
    if connects(longer, from, to) {
        let i = choose|i: int|
            0 <= i < longer.len() && (#[trigger] longer[i]).0 == from && longer[i].2 == to;
        if i < count {
            assert(shorter[i] == longer[i]);
        }
    }
}

fn label_string(label: TransitionType) -> (text: String)
    ensures
        text@ == label_text(label),
{
    match label {
        TransitionType::Epsilon => String::from_str("&epsilon;"),
        TransitionType::Symbol(symbol) => {
            let mut text = String::new();
            text.push(symbol);
            assert(text@ =~= seq![symbol]);
            text
        },
    }
}

/// A labelled edge of the graph: start state, text, end state.
pub type Labelled = (usize, String, usize);

/// The key by which a labelled edge is ordered: start state, then end
/// state.
pub open spec fn pair_key(from: State, to: State) -> Key {
    (from, 0u32, to)
}

/// What holds of the labelled edges gathered from a list of edges: they
/// ascend by start and end state, there is one for every two states that an
/// edge of the list joins, and its text is the labels between the two in
/// the order of the list.
pub open spec fn gathers(list: Seq<Edge>, groups: Seq<(State, Seq<char>, State)>) -> bool {
    &&& ascending(Seq::new(groups.len(), |i: int| pair_key(groups[i].0, groups[i].2)))
    &&& (forall|i: int|
        0 <= i < groups.len() ==> connects(list, (#[trigger] groups[i]).0, groups[i].2)
            && groups[i].1 == joined_labels(list, groups[i].0, groups[i].2))
    &&& (forall|from: State, to: State| #[trigger]
        connects(list, from, to) ==> exists|i: int|
            0 <= i < groups.len() && (#[trigger] groups[i]).0 == from && groups[i].2 == to)
}

/// The views of labelled edges.
pub open spec fn labelled_views(groups: Seq<Labelled>) -> Seq<(State, Seq<char>, State)> {
    Seq::new(groups.len(), |i: int| (groups[i].0, groups[i].1@, groups[i].2))
}

/// One more edge among the labelled edges.
proof fn lemma_gather_step(
    list: Seq<Edge>,
    count: int,
    before: Seq<(State, Seq<char>, State)>,
    after: Seq<(State, Seq<char>, State)>,
    place: int,
    fresh: bool,
)
    requires
        0 <= count < list.len(),
        gathers(list.take(count), before),
        0 <= place <= before.len(),
        ascending(Seq::new(after.len(), |i: int| pair_key(after[i].0, after[i].2))),
        fresh == !Seq::new(before.len(), |i: int| pair_key(before[i].0, before[i].2)).contains(
            pair_key(list[count].0, list[count].2),
        ),
        fresh ==> after.len() == before.len() + 1 && after[place] == (
            list[count].0,
            label_text(list[count].1),
            list[count].2,
        ) && (forall|i: int|
            0 <= i < before.len() ==> #[trigger] before[i] == after[if i < place {
                i
            } else {
                i + 1
            }]),
        !fresh ==> place < before.len() && after.len() == before.len() && before[place].0
            == list[count].0 && before[place].2 == list[count].2 && after[place] == (
            list[count].0,
            before[place].1 + ", "@ + label_text(list[count].1),
            list[count].2,
        ) && (forall|i: int|
            0 <= i < before.len() && i != place ==> #[trigger] before[i] == after[i]),
    ensures
        gathers(list.take(count + 1), after),
{
    let shorter = list.take(count);
    let longer = list.take(count + 1);
    let edge = list[count];
    let keys = Seq::new(before.len(), |i: int| pair_key(before[i].0, before[i].2));
    let keys_after = Seq::new(after.len(), |i: int| pair_key(after[i].0, after[i].2));
    assert forall|i: int| 0 <= i < after.len() implies connects(
        longer,
        (#[trigger] after[i]).0,
        after[i].2,
    ) && after[i].1 == joined_labels(longer, after[i].0, after[i].2) by {
        lemma_connects_step(list, count, after[i].0, after[i].2);
        if i == place {
            if fresh {
                if connects(shorter, edge.0, edge.2) {
                    let k = choose|k: int|
                        0 <= k < before.len() && (#[trigger] before[k]).0 == edge.0 && before[k].2
                            == edge.2;
                    assert(keys[k] == pair_key(edge.0, edge.2));
                }
            }
        } else {
            let k = if fresh && i > place {
                i - 1
            } else {
                i
            };
            assert(before[k] == after[i]);
            if after[i].0 == edge.0 && after[i].2 == edge.2 {
                assert(keys_after[i] == keys_after[place]);
                if i < place {
                    assert(key_lt(keys_after[i], keys_after[place]));
                } else {
                    assert(key_lt(keys_after[place], keys_after[i]));
                }
            }
        }
    }
    assert forall|from: State, to: State| #[trigger] connects(longer, from, to) implies exists|
        i: int,
    |
        0 <= i < after.len() && (#[trigger] after[i]).0 == from && after[i].2 == to by {
        lemma_connects_step(list, count, from, to);
        if from == edge.0 && to == edge.2 {
            assert(after[place].0 == from && after[place].2 == to);
        } else {
            let k = choose|k: int|
                0 <= k < before.len() && (#[trigger] before[k]).0 == from && before[k].2 == to;
            let i = if fresh && k >= place {
                k + 1
            } else {
                k
            };
            assert(before[k] == after[i]);
            assert(after[i].0 == from && after[i].2 == to);
        }
    }
}

/// Gathers the labels of the edges between every two states.
fn group_labels(list: &Vec<Edge>) -> (groups: Vec<Labelled>)
    ensures
        gathers(list@, labelled_views(groups@)),
{
    let mut groups: Vec<Labelled> = Vec::new();
    let mut keys: Vec<Key> = Vec::new();
    let mut i: usize = 0;
    assert(Seq::new(
        0,
        |i: int| pair_key(labelled_views(groups@)[i].0, labelled_views(groups@)[i].2),
    ) =~= keys@);
    while i < list.len()
        invariant
            i <= list.len(),
            keys@ == Seq::new(
                groups@.len(),
                |i: int| pair_key(labelled_views(groups@)[i].0, labelled_views(groups@)[i].2),
            ),
            gathers(list@.take(i as int), labelled_views(groups@)),
        decreases list.len() - i,
    {
        let (state, label, dest_state) = list[i];
        let text = label_string(label);
        let ghost before = labelled_views(groups@);
        let (place, fresh) = insert_ascending(&mut keys, (state, 0, dest_state));
        if fresh {
            groups.insert(place, (state, text, dest_state));
        } else {
            let mut group = groups.remove(place);
            group.1.append(", ");
            group.1.append(text.as_str());
            groups.insert(place, group);
        }
        proof {
            let after = labelled_views(groups@);
            assert(keys@ =~= Seq::new(after.len(), |i: int| pair_key(after[i].0, after[i].2)));
            lemma_gather_step(list@, i as int, before, after, place as int, fresh);
        }
        i += 1;
    }
    assert(list@.take(list@.len() as int) == list@);
    groups
}

/// Whether a node stands for the state.
spec fn has_node(nodes: Seq<(usize, String)>, state: State) -> bool {
    exists|k: int| 0 <= k < nodes.len() && (#[trigger] nodes[k]).0 == state
}

/// Whether the state is among the first `count` items.
spec fn among(items: Seq<State>, count: int, state: State) -> bool {
    exists|j: int| 0 <= j < count && 0 <= j < items.len() && #[trigger] items[j] == state
}

/// A node put at its place keeps the nodes in step with the items.
proof fn lemma_node_placed(
    before: Seq<(usize, String)>,
    after: Seq<(usize, String)>,
    keys_before: Seq<Key>,
    item: State,
    place: int,
    fresh: bool,
    state: State,
)
    requires
        keys_before.len() == before.len(),
        forall|k: int|
            0 <= k < before.len() ==> (#[trigger] keys_before[k]) == (before[k].0, 0u32, 0usize),
        0 <= place <= before.len(),
        fresh == !keys_before.contains((item, 0u32, 0usize)),
        fresh ==> after.len() == before.len() + 1 && after[place].0 == item && (forall|k: int|
            0 <= k < before.len() ==> #[trigger] before[k] == after[if k < place {
                k
            } else {
                k + 1
            }]),
        !fresh ==> after == before,
    ensures
        has_node(after, state) <==> has_node(before, state) || state == item,
{
    if has_node(after, state) {
        let k = choose|k: int| 0 <= k < after.len() && (#[trigger] after[k]).0 == state;
        if fresh {
            if k < place {
                assert(before[k] == after[k]);
            } else if k > place {
                assert(before[k - 1] == after[k]);
            }
        }
    }
    if has_node(before, state) {
        let k = choose|k: int| 0 <= k < before.len() && (#[trigger] before[k]).0 == state;
        if fresh {
            let at = if k < place {
                k
            } else {
                k + 1
            };
            assert(before[k] == after[at]);
            assert(after[at].0 == state);
        }
    }
    if state == item {
        if fresh {
            assert(after[place].0 == state);
        } else {
            let k = choose|k: int|
                0 <= k < keys_before.len() && keys_before[k] == (item, 0u32, 0usize);
            assert(before[k].0 == item);
        }
    }
}

/// The states in ascending order, each with its name.
fn name_nodes(states: &BTreeSet<State>) -> (nodes: Vec<(usize, String)>)
    ensures
        forall|state: State| states@.contains(state) <==> #[trigger] has_node(nodes@, state),
        forall|i: int|
            0 <= i < nodes@.len() ==> (#[trigger] nodes@[i]).1@ == node_name(nodes@[i].0),
        forall|i: int, j: int|
            0 <= i < j < nodes@.len() ==> (#[trigger] nodes@[i]).0 < (#[trigger] nodes@[j]).0,
{
    let items = set_items(states);
    let mut nodes: Vec<(usize, String)> = Vec::new();
    let mut keys: Vec<Key> = Vec::new();
    let mut i: usize = 0;
    while i < items.len()
        invariant
            i <= items.len(),
            items@.to_set() == states@,
            ascending(keys@),
            keys@.len() == nodes@.len(),
            forall|k: int|
                0 <= k < nodes@.len() ==> (#[trigger] keys@[k]) == (nodes@[k].0, 0u32, 0usize),
            forall|k: int|
                0 <= k < nodes@.len() ==> (#[trigger] nodes@[k]).1@ == node_name(nodes@[k].0),
            forall|state: State|
                #[trigger] has_node(nodes@, state) <==> among(items@, i as int, state),
        decreases items.len() - i,
    {
        let ghost before = nodes@;
        let ghost keys_before = keys@;
        let (place, fresh) = insert_ascending(&mut keys, (items[i], 0, 0));
        if fresh {
            let mut name = String::from_str("q");
            let numeral = decimal_text(items[i]);
            name.append(numeral.as_str());
            nodes.insert(place, (items[i], name));
        }
        proof {
            let item = items@[i as int];
            assert forall|state: State|
                #[trigger] has_node(nodes@, state) <==> among(items@, i + 1, state) by {
                lemma_node_placed(before, nodes@, keys_before, item, place as int, fresh, state);
                if among(items@, i as int, state) {
                    let j = choose|j: int|
                        0 <= j < i && 0 <= j < items@.len() && #[trigger] items@[j] == state;
                    assert(items@[j] == state);
                }
                if among(items@, i + 1, state) {
                    let j = choose|j: int|
                        0 <= j < i + 1 && 0 <= j < items@.len() && #[trigger] items@[j] == state;
                    if j < i {
                        assert(among(items@, i as int, state));
                    }
                }
                if state == item {
                    assert(items@[i as int] == state);
                }
            }
        }
        i += 1;
    }
    proof {
        assert forall|state: State| states@.contains(state) <==> #[trigger] has_node(
            nodes@,
            state,
        ) by {
            if states@.contains(state) {
                assert(items@.to_set().contains(state));
                let j = choose|j: int| 0 <= j < items@.len() && items@[j] == state;
                assert(items@[j] == state);
            }
            if among(items@, items@.len() as int, state) {
                let j = choose|j: int|
                    0 <= j < items@.len() && 0 <= j < items@.len() && #[trigger] items@[j]
                        == state;
                assert(items@.to_set().contains(items@[j]));
            }
        }
        assert forall|a: int, b: int| 0 <= a < b < nodes@.len() implies (#[trigger] nodes@[a]).0 < (
        #[trigger] nodes@[b]).0 by {
            assert(key_lt(keys@[a], keys@[b]));
        }
    }
    nodes
}

impl AutomataPrinter {
    /// The names of the nodes.
    pub closed spec fn node_names(&self) -> Seq<(State, Seq<char>)> {
        Seq::new(self.nodes@.len(), |i: int| (self.nodes@[i].0, self.nodes@[i].1@))
    }

    /// The labelled edges.
    pub closed spec fn labelled_edges(&self) -> Seq<(State, Seq<char>, State)> {
        labelled_views(self.edges@)
    }

    /// The start state.
    pub closed spec fn start(&self) -> State {
        self.start_state
    }

    /// The final states.
    pub closed spec fn finals(&self) -> Set<State> {
        self.final_states@
    }

    /// Whether the graph is that of the automaton, whose edges in the order
    /// of their keys are `list`: the nodes are the states in ascending
    /// order, each once and with its name; the labelled edges ascend by
    /// start and end state, one for every two states that an edge joins,
    /// labelled with the labels between the two in the order of their keys.
    pub open spec fn draws(&self, nfa: Nfa, list: Seq<Edge>) -> bool {
        &&& self.start() == nfa.start
        &&& self.finals() == nfa.finals
        &&& list.to_set() == nfa.edges
        &&& in_key_order(list)
        &&& (forall|state: State|
            nfa.states().contains(state) <==> exists|i: int|
                0 <= i < self.node_names().len() && (#[trigger] self.node_names()[i]).0 == state)
        &&& (forall|i: int|
            0 <= i < self.node_names().len() ==> (#[trigger] self.node_names()[i]).1 == node_name(
                self.node_names()[i].0,
            ))
        &&& (forall|i: int, j: int|
            0 <= i < j < self.node_names().len() ==> (#[trigger] self.node_names()[i]).0 < (
            #[trigger] self.node_names()[j]).0)
        &&& gathers(list, self.labelled_edges())
    }

    /// Draws the graph of an automaton.
    pub fn new<A: AutomataDebug>(nfa: &A) -> (printer: Self)
        requires
            nfa.inspectable(),
        ensures
            exists|list: Seq<Edge>| printer.draws(nfa.model(), list),
    {
        let states = nfa.states();
        let nodes = name_nodes(&states);
        let table = nfa.transitions();
        let listed = table_edges(&table);
        let list = sort_edges(&listed);
        proof {
            lemma_tabled(nfa.model().edges, table@);
        }
        let edges = group_labels(&list);
        let printer = Self {
            nodes,
            edges,
            start_state: nfa.start_state(),
            final_states: nfa.final_states().clone(),
        };
        proof {
            let names = printer.node_names();
            assert forall|state: State|
                nfa.model().states().contains(state) <==> exists|i: int|
                    0 <= i < names.len() && (#[trigger] names[i]).0 == state by {
                if nfa.model().states().contains(state) {
                    assert(has_node(printer.nodes@, state));
                    let i = choose|i: int|
                        0 <= i < printer.nodes@.len() && (#[trigger] printer.nodes@[i]).0 == state;
                    assert(names[i].0 == state);
                }
                if exists|i: int| 0 <= i < names.len() && (#[trigger] names[i]).0 == state {
                    let i = choose|i: int| 0 <= i < names.len() && (#[trigger] names[i]).0 == state;
                    assert(printer.nodes@[i].0 == state);
                    assert(has_node(printer.nodes@, state));
                }
            }
            assert forall|i: int, j: int| 0 <= i < j < names.len() implies (
            #[trigger] names[i]).0 < (#[trigger] names[j]).0 by {
                assert(printer.nodes@[i].0 < printer.nodes@[j].0);
            }
            assert forall|i: int| 0 <= i < names.len() implies (#[trigger] names[i]).1 == node_name(
                names[i].0,
            ) by {
                assert(printer.nodes@[i].1@ == node_name(printer.nodes@[i].0));
            }
            assert(printer.draws(nfa.model(), list@));
        }
        printer
    }

    /// The nodes: every state with its name.
    pub fn nodes(&self) -> (nodes: &Vec<(usize, String)>)
        ensures
            nodes@.len() == self.node_names().len(),
            forall|i: int|
                0 <= i < nodes@.len() ==> (#[trigger] nodes@[i]).0 == self.node_names()[i].0
                    && nodes@[i].1@ == self.node_names()[i].1,
    {
        &self.nodes
    }

    /// The edges: start state, label and end state.
    pub fn edges(&self) -> (edges: &Vec<(usize, String, usize)>)
        ensures
            edges@.len() == self.labelled_edges().len(),
            forall|i: int|
                0 <= i < edges@.len() ==> (#[trigger] edges@[i]).0 == self.labelled_edges()[i].0
                    && edges@[i].1@ == self.labelled_edges()[i].1 && edges@[i].2
                    == self.labelled_edges()[i].2,
    {
        &self.edges
    }

    pub fn start_state(&self) -> (state: State)
        ensures
            state == self.start(),
    {
        self.start_state
    }

    pub fn final_states(&self) -> (states: &BTreeSet<State>)
        ensures
            states@ == self.finals(),
    {
        &self.final_states
    }
}

} // verus!

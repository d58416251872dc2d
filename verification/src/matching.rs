//! The texts that a syntax tree matches, and the proof that the automaton
//! built from the tree accepts exactly those.

use crate::automata::{lemma_char_code, Edge, Nfa, State, TransitionType};
use crate::builder::{
    built, built_class, chain, class_state_count, class_well_formed, fork, leaf,
    lemma_built_class_within, lemma_built_within, links, repeat, span, state_count, well_formed,
    within,
};
use crate::language::{
    accepts, before_epsilon, before_symbol, ends_in_epsilon, leads, leads_in, lemma_leads_epsilon,
    lemma_leads_front_epsilon, lemma_leads_joined, lemma_leads_more_edges, lemma_leads_symbol,
};
use crate::parser::{BinaryOp, CharacterClassBinaryOp, CharacterClassType, RegexAST, UnaryOp};
use vstd::prelude::*;

verus! {

/// Whether the character is a member of the class.
pub open spec fn class_holds(class: CharacterClassType, symbol: char) -> bool
    decreases class,
{
    match class {
        CharacterClassType::Single(member) => symbol == member,
        CharacterClassType::Binary(lhs, CharacterClassBinaryOp::Union, rhs) => class_holds(
            *lhs,
            symbol,
        ) || class_holds(*rhs, symbol),
        CharacterClassType::Binary(lhs, CharacterClassBinaryOp::Range, rhs) => match (*lhs, *rhs) {
            (CharacterClassType::Single(low), CharacterClassType::Single(high)) => low as u32
                <= symbol as u32 <= high as u32,
            _ => false,
        },
    }
}

/// Whether `cut` is a place to cut `text` in two.
pub open spec fn cut_at(text: Seq<char>, cut: int) -> bool {
    0 <= cut <= text.len()
}

/// Whether `count` is at least `least`.
pub open spec fn at_least(count: nat, least: nat) -> bool {
    count >= least
}

/// Whether the whole of `text` matches the tree.
pub open spec fn tree_matches(tree: RegexAST, text: Seq<char>) -> bool
    decreases tree, 0nat,
{
    match tree {
        RegexAST::Symbol(symbol) => text == seq![symbol],
        RegexAST::EmptyString => text.len() == 0,
        RegexAST::CharacterClass(class) => text.len() == 1 && class_holds(class, text[0]),
        RegexAST::Binary(lhs, BinaryOp::Union, rhs) => tree_matches(*lhs, text) || tree_matches(
            *rhs,
            text,
        ),
        RegexAST::Binary(lhs, BinaryOp::Concatenation, rhs) => exists|cut: int|
            #[trigger] cut_at(text, cut) && tree_matches(*lhs, text.take(cut)) && tree_matches(
                *rhs,
                text.skip(cut),
            ),
        RegexAST::Unary(child, UnaryOp::ClosurePlus) => exists|count: nat|
            #[trigger] at_least(count, 1) && repeats(*child, text, count),
        RegexAST::Unary(child, UnaryOp::ClosureStar) => exists|count: nat|
            #[trigger] at_least(count, 0) && repeats(*child, text, count),
    }
}

/// Whether `text` is `count` texts in a row that each match the tree.
pub open spec fn repeats(tree: RegexAST, text: Seq<char>, count: nat) -> bool
    decreases tree, count + 1,
{
    if count == 0 {
        text.len() == 0
    } else {
        exists|cut: int|
            #[trigger] cut_at(text, cut) && repeats(tree, text.take(cut), (count - 1) as nat)
                && tree_matches(tree, text.skip(cut))
    }
}

/// A text without its last character, cut in two, is the two parts of the
/// text without the last character of the second.
pub proof fn lemma_cut_before_last(text: Seq<char>, cut: int)
    requires
        0 <= cut < text.len(),
    ensures
        text.take(cut) == text.drop_last().take(cut),
        text.skip(cut) == text.drop_last().skip(cut).push(text.last()),
{
    assert(text.take(cut) =~= text.drop_last().take(cut));
    assert(text.skip(cut) =~= text.drop_last().skip(cut).push(text.last()));
}

/// The paths of a fragment of two states and one edge.
pub proof fn lemma_leaf_leads(
    label: TransitionType,
    first: nat,
    text: Seq<char>,
    to: State,
    steps: nat,
)
    requires
        first + 2 <= usize::MAX,
        leads_in(leaf(label, first), first as State, text, to, steps),
    ensures
        to == first || to == first + 1,
        to == first ==> text.len() == 0,
        to == first + 1 ==> (match label {
            TransitionType::Epsilon => text.len() == 0,
            TransitionType::Symbol(symbol) => text == seq![symbol],
        }),
    decreases steps,
{
    let nfa = leaf(label, first);
    let start = first as State;
    if steps == 0 {
    } else if ends_in_epsilon(nfa, start, text, to, steps) {
        let prev = before_epsilon(nfa, start, text, to, steps);
        lemma_leaf_leads(label, first, text, prev, (steps - 1) as nat);
        assert(nfa.edges.contains((prev, TransitionType::Epsilon, to)));
    } else {
        let prev = before_symbol(nfa, start, text, to, steps);
        lemma_char_code(text.last());
        lemma_leaf_leads(label, first, text.drop_last(), prev, (steps - 1) as nat);
        assert(nfa.edges.contains((prev, TransitionType::Symbol(text.last()), to)));
        assert(text =~= seq![text.last()]);
    }
}

/// A fragment of two states and one edge accepts the text of its label.
pub proof fn lemma_leaf_accepts(label: TransitionType, first: nat, text: Seq<char>)
    requires
        first + 2 <= usize::MAX,
    ensures
        accepts(leaf(label, first), text) <==> (match label {
            TransitionType::Epsilon => text.len() == 0,
            TransitionType::Symbol(symbol) => text == seq![symbol],
        }),
{
    let nfa = leaf(label, first);
    let start = first as State;
    let end = (first + 1) as State;
    if accepts(nfa, text) {
        let last = choose|last: State|
            nfa.finals.contains(last) && leads(nfa, nfa.start, text, last);
        let steps = choose|steps: nat| leads_in(nfa, nfa.start, text, last, steps);
        lemma_leaf_leads(label, first, text, last, steps);
    }
    let nothing = Seq::<char>::empty();
    assert(leads_in(nfa, start, nothing, start, 0));
    assert(nfa.edges.contains((start, label, end)));
    match label {
        TransitionType::Epsilon => {
            if text.len() == 0 {
                assert(text =~= nothing);
                lemma_leads_epsilon(nfa, start, nothing, start, end);
                assert(nfa.finals.contains(end) && leads(nfa, nfa.start, text, end));
            }
        },
        TransitionType::Symbol(symbol) => {
            if text == seq![symbol] {
                lemma_leads_symbol(nfa, start, nothing, start, symbol, end);
                assert(nothing.push(symbol) =~= text);
                assert(nfa.finals.contains(end) && leads(nfa, nfa.start, text, end));
            }
        },
    }
}

/// The paths of a fragment of two states and an edge for every character of
/// a range.
pub proof fn lemma_span_leads(
    low: char,
    high: char,
    first: nat,
    text: Seq<char>,
    to: State,
    steps: nat,
)
    requires
        first + 2 <= usize::MAX,
        leads_in(span(low, high, first), first as State, text, to, steps),
    ensures
        to == first || to == first + 1,
        to == first ==> text.len() == 0,
        to == first + 1 ==> text.len() == 1 && low as u32 <= text[0] as u32 <= high as u32,
    decreases steps,
{
    let nfa = span(low, high, first);
    let start = first as State;
    if steps == 0 {
    } else if ends_in_epsilon(nfa, start, text, to, steps) {
        let prev = before_epsilon(nfa, start, text, to, steps);
        lemma_span_leads(low, high, first, text, prev, (steps - 1) as nat);
        assert(nfa.edges.contains((prev, TransitionType::Epsilon, to)));
    } else {
        let prev = before_symbol(nfa, start, text, to, steps);
        lemma_char_code(text.last());
        lemma_span_leads(low, high, first, text.drop_last(), prev, (steps - 1) as nat);
        assert(nfa.edges.contains((prev, TransitionType::Symbol(text.last()), to)));
    }
}

/// A fragment for a range accepts the single characters of the range.
pub proof fn lemma_span_accepts(low: char, high: char, first: nat, text: Seq<char>)
    requires
        first + 2 <= usize::MAX,
    ensures
        accepts(span(low, high, first), text) <==> text.len() == 1 && low as u32 <= text[0] as u32
            <= high as u32,
{
    let nfa = span(low, high, first);
    let start = first as State;
    let end = (first + 1) as State;
    if accepts(nfa, text) {
        let last = choose|last: State|
            nfa.finals.contains(last) && leads(nfa, nfa.start, text, last);
        let steps = choose|steps: nat| leads_in(nfa, nfa.start, text, last, steps);
        lemma_span_leads(low, high, first, text, last, steps);
    }
    if text.len() == 1 && low as u32 <= text[0] as u32 <= high as u32 {
        let nothing = Seq::<char>::empty();
        let symbol = text[0];
        lemma_char_code(symbol);
        assert(leads_in(nfa, start, nothing, start, 0));
        assert(nfa.edges.contains((start, TransitionType::Symbol(symbol), end)));
        lemma_leads_symbol(nfa, start, nothing, start, symbol, end);
        assert(nothing.push(symbol) =~= text);
        assert(nfa.finals.contains(end) && leads(nfa, nfa.start, text, end));
    }
}

/// The paths of two fragments under a new start: a path stays at the start,
/// or walks a path of one fragment.
pub proof fn lemma_fork_leads(
    lhs: Nfa,
    rhs: Nfa,
    low: nat,
    mid: nat,
    high: nat,
    text: Seq<char>,
    to: State,
    steps: nat,
)
    requires
        within(lhs, low, mid),
        within(rhs, mid, high),
        high < usize::MAX,
        leads_in(fork(lhs, rhs, high), high as State, text, to, steps),
    ensures
        to == high || (low <= to < mid) || (mid <= to < high),
        to == high ==> text.len() == 0,
        low <= to < mid ==> leads(lhs, lhs.start, text, to),
        mid <= to < high ==> leads(rhs, rhs.start, text, to),
    decreases steps,
{
    let nfa = fork(lhs, rhs, high);
    let start = high as State;
    if steps == 0 {
    } else if ends_in_epsilon(nfa, start, text, to, steps) {
        let prev = before_epsilon(nfa, start, text, to, steps);
        lemma_fork_leads(lhs, rhs, low, mid, high, text, prev, (steps - 1) as nat);
        let edge = (prev, TransitionType::Epsilon, to);
        assert(nfa.edges.contains(edge));
        if lhs.edges.contains(edge) {
            lemma_leads_epsilon(lhs, lhs.start, text, prev, to);
        } else if rhs.edges.contains(edge) {
            lemma_leads_epsilon(rhs, rhs.start, text, prev, to);
        } else if to == lhs.start {
            assert(leads_in(lhs, lhs.start, text, to, 0));
        } else {
            assert(leads_in(rhs, rhs.start, text, to, 0));
        }
    } else {
        let prev = before_symbol(nfa, start, text, to, steps);
        lemma_char_code(text.last());
        lemma_fork_leads(lhs, rhs, low, mid, high, text.drop_last(), prev, (steps - 1) as nat);
        let edge = (prev, TransitionType::Symbol(text.last()), to);
        assert(nfa.edges.contains(edge));
        assert(text.drop_last().push(text.last()) =~= text);
        if lhs.edges.contains(edge) {
            lemma_leads_symbol(lhs, lhs.start, text.drop_last(), prev, text.last(), to);
        } else {
            lemma_leads_symbol(rhs, rhs.start, text.drop_last(), prev, text.last(), to);
        }
    }
}

/// Two fragments under a new start accept what either accepts.
pub proof fn lemma_fork_accepts(lhs: Nfa, rhs: Nfa, low: nat, mid: nat, high: nat, text: Seq<char>)
    requires
        within(lhs, low, mid),
        within(rhs, mid, high),
        high < usize::MAX,
    ensures
        accepts(fork(lhs, rhs, high), text) <==> accepts(lhs, text) || accepts(rhs, text),
{
    let nfa = fork(lhs, rhs, high);
    let start = high as State;
    if accepts(nfa, text) {
        let last = choose|last: State|
            nfa.finals.contains(last) && leads(nfa, nfa.start, text, last);
        let steps = choose|steps: nat| leads_in(nfa, nfa.start, text, last, steps);
        lemma_fork_leads(lhs, rhs, low, mid, high, text, last, steps);
        if lhs.finals.contains(last) {
            assert(lhs.finals.contains(last) && leads(lhs, lhs.start, text, last));
        } else {
            assert(rhs.finals.contains(last) && leads(rhs, rhs.start, text, last));
        }
    }
    if accepts(lhs, text) {
        let last = choose|last: State|
            lhs.finals.contains(last) && leads(lhs, lhs.start, text, last);
        let steps = choose|steps: nat| leads_in(lhs, lhs.start, text, last, steps);
        lemma_leads_more_edges(lhs, nfa, lhs.start, text, last, steps);
        assert(nfa.edges.contains((start, TransitionType::Epsilon, lhs.start)));
        lemma_leads_front_epsilon(nfa, start, lhs.start, text, last);
        assert(nfa.finals.contains(last) && leads(nfa, nfa.start, text, last));
    }
    if accepts(rhs, text) {
        let last = choose|last: State|
            rhs.finals.contains(last) && leads(rhs, rhs.start, text, last);
        let steps = choose|steps: nat| leads_in(rhs, rhs.start, text, last, steps);
        lemma_leads_more_edges(rhs, nfa, rhs.start, text, last, steps);
        assert(nfa.edges.contains((start, TransitionType::Epsilon, rhs.start)));
        lemma_leads_front_epsilon(nfa, start, rhs.start, text, last);
        assert(nfa.finals.contains(last) && leads(nfa, nfa.start, text, last));
    }
}

/// Whether `text` is cut in two so that the first fragment accepts the
/// first part on the way to a final state and the second fragment reads the
/// second part on the way to `to`.
pub open spec fn passes_on(lhs: Nfa, rhs: Nfa, text: Seq<char>, to: State) -> bool {
    exists|cut: int, last: State|
        0 <= cut <= text.len() && lhs.finals.contains(last) && #[trigger] leads(
            lhs,
            lhs.start,
            text.take(cut),
            last,
        ) && leads(rhs, rhs.start, text.skip(cut), to)
}

/// The paths of one fragment after the other: a path walks a path of the
/// first, or one of the first to a final state and then one of the second.
pub proof fn lemma_chain_leads(
    lhs: Nfa,
    rhs: Nfa,
    low: nat,
    mid: nat,
    high: nat,
    text: Seq<char>,
    to: State,
    steps: nat,
)
    requires
        within(lhs, low, mid),
        within(rhs, mid, high),
        high <= usize::MAX,
        leads_in(chain(lhs, rhs), lhs.start, text, to, steps),
    ensures
        (low <= to < mid) || (mid <= to < high),
        low <= to < mid ==> leads(lhs, lhs.start, text, to),
        mid <= to < high ==> passes_on(lhs, rhs, text, to),
    decreases steps,
{
    let nfa = chain(lhs, rhs);
    if steps == 0 {
        assert(leads_in(lhs, lhs.start, text, to, 0));
    } else if ends_in_epsilon(nfa, lhs.start, text, to, steps) {
        let prev = before_epsilon(nfa, lhs.start, text, to, steps);
        lemma_chain_leads(lhs, rhs, low, mid, high, text, prev, (steps - 1) as nat);
        let edge = (prev, TransitionType::Epsilon, to);
        assert(nfa.edges.contains(edge));
        if lhs.edges.contains(edge) {
            lemma_leads_epsilon(lhs, lhs.start, text, prev, to);
        } else if rhs.edges.contains(edge) {
            let (cut, last) = choose|cut: int, last: State|
                0 <= cut <= text.len() && lhs.finals.contains(last) && #[trigger] leads(
                    lhs,
                    lhs.start,
                    text.take(cut),
                    last,
                ) && leads(rhs, rhs.start, text.skip(cut), prev);
            lemma_leads_epsilon(rhs, rhs.start, text.skip(cut), prev, to);
            assert(leads(lhs, lhs.start, text.take(cut), last));
        } else {
            assert(links(lhs.finals, rhs.start).contains(edge));
            let cut = text.len() as int;
            assert(text.take(cut) =~= text);
            assert(leads_in(rhs, rhs.start, text.skip(cut), rhs.start, 0));
            assert(leads(lhs, lhs.start, text.take(cut), prev));
        }
    } else {
        let prev = before_symbol(nfa, lhs.start, text, to, steps);
        let symbol = text.last();
        let shorter = text.drop_last();
        lemma_char_code(symbol);
        lemma_chain_leads(lhs, rhs, low, mid, high, shorter, prev, (steps - 1) as nat);
        let edge = (prev, TransitionType::Symbol(symbol), to);
        assert(nfa.edges.contains(edge));
        assert(shorter.push(symbol) =~= text);
        if lhs.edges.contains(edge) {
            lemma_leads_symbol(lhs, lhs.start, shorter, prev, symbol, to);
        } else {
            assert(rhs.edges.contains(edge));
            let (cut, last) = choose|cut: int, last: State|
                0 <= cut <= shorter.len() && lhs.finals.contains(last) && #[trigger] leads(
                    lhs,
                    lhs.start,
                    shorter.take(cut),
                    last,
                ) && leads(rhs, rhs.start, shorter.skip(cut), prev);
            lemma_cut_before_last(text, cut);
            lemma_leads_symbol(rhs, rhs.start, shorter.skip(cut), prev, symbol, to);
            assert(leads(lhs, lhs.start, text.take(cut), last));
        }
    }
}

/// One fragment after the other accepts a text that is cut in two so that
/// the first accepts the first part and the second the second.
pub proof fn lemma_chain_accepts(lhs: Nfa, rhs: Nfa, low: nat, mid: nat, high: nat, text: Seq<char>)
    requires
        within(lhs, low, mid),
        within(rhs, mid, high),
        high <= usize::MAX,
    ensures
        accepts(chain(lhs, rhs), text) <==> exists|cut: int|
            0 <= cut <= text.len() && #[trigger] accepts(lhs, text.take(cut)) && accepts(
                rhs,
                text.skip(cut),
            ),
{
    let nfa = chain(lhs, rhs);
    if accepts(nfa, text) {
        let end = choose|end: State| nfa.finals.contains(end) && leads(nfa, nfa.start, text, end);
        let steps = choose|steps: nat| leads_in(nfa, nfa.start, text, end, steps);
        lemma_chain_leads(lhs, rhs, low, mid, high, text, end, steps);
        let (cut, last) = choose|cut: int, last: State|
            0 <= cut <= text.len() && lhs.finals.contains(last) && #[trigger] leads(
                lhs,
                lhs.start,
                text.take(cut),
                last,
            ) && leads(rhs, rhs.start, text.skip(cut), end);
        assert(lhs.finals.contains(last) && leads(lhs, lhs.start, text.take(cut), last));
        assert(rhs.finals.contains(end) && leads(rhs, rhs.start, text.skip(cut), end));
        assert(accepts(lhs, text.take(cut)) && accepts(rhs, text.skip(cut)));
    }
    if exists|cut: int|
        0 <= cut <= text.len() && #[trigger] accepts(lhs, text.take(cut)) && accepts(
            rhs,
            text.skip(cut),
        ) {
        let cut = choose|cut: int|
            0 <= cut <= text.len() && #[trigger] accepts(lhs, text.take(cut)) && accepts(
                rhs,
                text.skip(cut),
            );
        let last = choose|last: State|
            lhs.finals.contains(last) && leads(lhs, lhs.start, text.take(cut), last);
        let end = choose|end: State|
            rhs.finals.contains(end) && leads(rhs, rhs.start, text.skip(cut), end);
        let before = choose|before: nat| leads_in(lhs, lhs.start, text.take(cut), last, before);
        let after = choose|after: nat| leads_in(rhs, rhs.start, text.skip(cut), end, after);
        lemma_leads_more_edges(lhs, nfa, lhs.start, text.take(cut), last, before);
        lemma_leads_more_edges(rhs, nfa, rhs.start, text.skip(cut), end, after);
        assert(nfa.edges.contains((last, TransitionType::Epsilon, rhs.start)));
        lemma_leads_epsilon(nfa, lhs.start, text.take(cut), last, rhs.start);
        lemma_leads_joined(nfa, lhs.start, text.take(cut), rhs.start, text.skip(cut), end, after);
        assert(text.take(cut) + text.skip(cut) =~= text);
        assert(nfa.finals.contains(end) && leads(nfa, nfa.start, text, end));
    }
}

/// Whether `text` is `count` texts in a row that the automaton each
/// accepts.
pub open spec fn accepts_in_row(nfa: Nfa, text: Seq<char>, count: nat) -> bool
    decreases count,
{
    if count == 0 {
        text.len() == 0
    } else {
        exists|cut: int|
            0 <= cut <= text.len() && accepts_in_row(nfa, text.take(cut), (count - 1) as nat)
                && #[trigger] accepts(nfa, text.skip(cut))
    }
}

/// Whether `text` is cut in two so that the fragment accepts the first part
/// as some texts in a row and reads the second part on the way to `to`.
pub open spec fn comes_round(child: Nfa, text: Seq<char>, to: State) -> bool {
    exists|cut: int, count: nat|
        0 <= cut <= text.len() && #[trigger] accepts_in_row(child, text.take(cut), count) && leads(
            child,
            child.start,
            text.skip(cut),
            to,
        )
}

/// The paths of a repeated fragment: a path stays at the new start, or
/// walks the fragment from start to a final state some times over and then
/// once more to where it ends.
pub proof fn lemma_repeat_leads(
    child: Nfa,
    op: UnaryOp,
    low: nat,
    high: nat,
    text: Seq<char>,
    to: State,
    steps: nat,
)
    requires
        within(child, low, high),
        high < usize::MAX,
        leads_in(repeat(child, op, high), high as State, text, to, steps),
    ensures
        to == high || (low <= to < high),
        to == high ==> text.len() == 0,
        low <= to < high ==> comes_round(child, text, to),
    decreases steps,
{
    let nfa = repeat(child, op, high);
    let start = high as State;
    if steps == 0 {
    } else if ends_in_epsilon(nfa, start, text, to, steps) {
        let prev = before_epsilon(nfa, start, text, to, steps);
        lemma_repeat_leads(child, op, low, high, text, prev, (steps - 1) as nat);
        let edge = (prev, TransitionType::Epsilon, to);
        assert(nfa.edges.contains(edge));
        if child.edges.contains(edge) {
            let (cut, count) = choose|cut: int, count: nat|
                0 <= cut <= text.len() && #[trigger] accepts_in_row(child, text.take(cut), count)
                    && leads(child, child.start, text.skip(cut), prev);
            lemma_leads_epsilon(child, child.start, text.skip(cut), prev, to);
            assert(accepts_in_row(child, text.take(cut), count));
        } else if links(child.finals, child.start).contains(edge) {
            let (cut, count) = choose|cut: int, count: nat|
                0 <= cut <= text.len() && #[trigger] accepts_in_row(child, text.take(cut), count)
                    && leads(child, child.start, text.skip(cut), prev);
            assert(child.finals.contains(prev) && leads(child, child.start, text.skip(cut), prev));
            let whole = text.len() as int;
            assert(text.take(whole) =~= text);
            assert(accepts_in_row(child, text.take(cut), count) && accepts(child, text.skip(cut)));
            assert(accepts_in_row(child, text, count + 1));
            assert(leads_in(child, child.start, text.skip(whole), child.start, 0));
            assert(accepts_in_row(child, text.take(whole), count + 1));
        } else {
            assert(prev == start);
            assert(text.take(0) =~= text);
            assert(accepts_in_row(child, text.take(0), 0));
            assert(leads_in(child, child.start, text.skip(0), child.start, 0));
        }
    } else {
        let prev = before_symbol(nfa, start, text, to, steps);
        let symbol = text.last();
        let shorter = text.drop_last();
        lemma_char_code(symbol);
        lemma_repeat_leads(child, op, low, high, shorter, prev, (steps - 1) as nat);
        let edge = (prev, TransitionType::Symbol(symbol), to);
        assert(nfa.edges.contains(edge));
        assert(child.edges.contains(edge));
        let (cut, count) = choose|cut: int, count: nat|
            0 <= cut <= shorter.len() && #[trigger] accepts_in_row(child, shorter.take(cut), count)
                && leads(child, child.start, shorter.skip(cut), prev);
        lemma_cut_before_last(text, cut);
        lemma_leads_symbol(child, child.start, shorter.skip(cut), prev, symbol, to);
        assert(accepts_in_row(child, text.take(cut), count));
    }
}

/// In a repeated fragment, a path from the new start reads every text that
/// is one or more texts in a row which the fragment each accepts, and ends
/// in a final state of the fragment.
pub proof fn lemma_repeat_follows(
    child: Nfa,
    op: UnaryOp,
    high: nat,
    text: Seq<char>,
    count: nat,
) -> (last: State)
    requires
        count >= 1,
        accepts_in_row(child, text, count),
    ensures
        child.finals.contains(last),
        leads(repeat(child, op, high), high as State, text, last),
    decreases count,
{
    let nfa = repeat(child, op, high);
    let start = high as State;
    let cut = choose|cut: int|
        0 <= cut <= text.len() && accepts_in_row(child, text.take(cut), (count - 1) as nat)
            && #[trigger] accepts(child, text.skip(cut));
    let last = choose|last: State|
        child.finals.contains(last) && leads(child, child.start, text.skip(cut), last);
    let steps = choose|steps: nat| leads_in(child, child.start, text.skip(cut), last, steps);
    lemma_leads_more_edges(child, nfa, child.start, text.skip(cut), last, steps);
    if count == 1 {
        assert(text.skip(cut) =~= text);
        assert(nfa.edges.contains((start, TransitionType::Epsilon, child.start)));
        lemma_leads_front_epsilon(nfa, start, child.start, text, last);
    } else {
        let prev = lemma_repeat_follows(child, op, high, text.take(cut), (count - 1) as nat);
        assert(nfa.edges.contains((prev, TransitionType::Epsilon, child.start)));
        lemma_leads_epsilon(nfa, start, text.take(cut), prev, child.start);
        lemma_leads_joined(nfa, start, text.take(cut), child.start, text.skip(cut), last, steps);
        assert(text.take(cut) + text.skip(cut) =~= text);
    }
    last
}

/// A repeated fragment accepts the texts that are some texts in a row which
/// the fragment each accepts: one or more under the plus, none or more under
/// the star.
pub proof fn lemma_repeat_accepts(child: Nfa, op: UnaryOp, low: nat, high: nat, text: Seq<char>)
    requires
        within(child, low, high),
        high < usize::MAX,
    ensures
        accepts(repeat(child, op, high), text) <==> exists|count: nat|
            (op is ClosureStar || count >= 1) && #[trigger] accepts_in_row(child, text, count),
{
    let nfa = repeat(child, op, high);
    let start = high as State;
    if accepts(nfa, text) {
        let end = choose|end: State| nfa.finals.contains(end) && leads(nfa, nfa.start, text, end);
        let steps = choose|steps: nat| leads_in(nfa, nfa.start, text, end, steps);
        lemma_repeat_leads(child, op, low, high, text, end, steps);
        if end == start {
            assert(accepts_in_row(child, text, 0));
        } else {
            let (cut, count) = choose|cut: int, count: nat|
                0 <= cut <= text.len() && #[trigger] accepts_in_row(child, text.take(cut), count)
                    && leads(child, child.start, text.skip(cut), end);
            assert(child.finals.contains(end) && leads(child, child.start, text.skip(cut), end));
            assert(accepts_in_row(child, text.take(cut), count) && accepts(child, text.skip(cut)));
            assert(accepts_in_row(child, text, count + 1));
        }
    }
    if exists|count: nat|
        (op is ClosureStar || count >= 1) && #[trigger] accepts_in_row(child, text, count) {
        let count = choose|count: nat|
            (op is ClosureStar || count >= 1) && #[trigger] accepts_in_row(child, text, count);
        if count == 0 {
            assert(leads_in(nfa, start, text, start, 0));
            assert(nfa.finals.contains(start) && leads(nfa, nfa.start, text, start));
        } else {
            let last = lemma_repeat_follows(child, op, high, text, count);
            assert(nfa.finals.contains(last) && leads(nfa, nfa.start, text, last));
        }
    }
}

/// The fragment of a class accepts the single characters of the class.
pub proof fn lemma_built_class_accepts(class: CharacterClassType, first: nat, text: Seq<char>)
    requires
        class_well_formed(class),
        first + class_state_count(class) <= usize::MAX,
    ensures
        accepts(built_class(class, first), text) <==> text.len() == 1 && class_holds(
            class,
            text[0],
        ),
    decreases class,
{
    match class {
        CharacterClassType::Single(symbol) => {
            lemma_leaf_accepts(TransitionType::Symbol(symbol), first, text);
            if text.len() == 1 && text[0] == symbol {
                assert(text =~= seq![symbol]);
            }
        },
        CharacterClassType::Binary(lhs, CharacterClassBinaryOp::Union, rhs) => {
            let mid = first + class_state_count(*lhs);
            let high = mid + class_state_count(*rhs);
            lemma_built_class_within(*lhs, first);
            lemma_built_class_within(*rhs, mid);
            lemma_built_class_accepts(*lhs, first, text);
            lemma_built_class_accepts(*rhs, mid, text);
            lemma_fork_accepts(
                built_class(*lhs, first),
                built_class(*rhs, mid),
                first,
                mid,
                high,
                text,
            );
        },
        CharacterClassType::Binary(lhs, CharacterClassBinaryOp::Range, rhs) => {
            match (*lhs, *rhs) {
                (CharacterClassType::Single(low), CharacterClassType::Single(high)) => {
                    lemma_span_accepts(low, high, first, text);
                },
                _ => {},
            }
        },
    }
}

/// The fragment of a tree accepts some texts in a row where they each match
/// the tree.
pub proof fn lemma_built_rows(tree: RegexAST, first: nat, text: Seq<char>, count: nat)
    requires
        well_formed(tree),
        first + state_count(tree) <= usize::MAX,
    ensures
        accepts_in_row(built(tree, first), text, count) <==> repeats(tree, text, count),
    decreases tree, count + 1,
{
    if count > 0 {
        let nfa = built(tree, first);
        if accepts_in_row(nfa, text, count) {
            let cut = choose|cut: int|
                0 <= cut <= text.len() && accepts_in_row(nfa, text.take(cut), (count - 1) as nat)
                    && #[trigger] accepts(nfa, text.skip(cut));
            lemma_built_rows(tree, first, text.take(cut), (count - 1) as nat);
            lemma_built_accepts(tree, first, text.skip(cut));
            assert(cut_at(text, cut) && repeats(tree, text.take(cut), (count - 1) as nat)
                && tree_matches(tree, text.skip(cut)));
        }
        if repeats(tree, text, count) {
            let cut = choose|cut: int|
                #[trigger] cut_at(text, cut) && repeats(tree, text.take(cut), (count - 1) as nat)
                    && tree_matches(tree, text.skip(cut));
            lemma_built_rows(tree, first, text.take(cut), (count - 1) as nat);
            lemma_built_accepts(tree, first, text.skip(cut));
            assert(accepts_in_row(nfa, text.take(cut), (count - 1) as nat) && accepts(
                nfa,
                text.skip(cut),
            ));
        }
    }
}

/// The automaton built from a syntax tree accepts the texts that match the
/// tree.
pub proof fn lemma_built_accepts(tree: RegexAST, first: nat, text: Seq<char>)
    requires
        well_formed(tree),
        first + state_count(tree) <= usize::MAX,
    ensures
        accepts(built(tree, first), text) <==> tree_matches(tree, text),
    decreases tree, 0nat,
{
    match tree {
        RegexAST::Symbol(symbol) => {
            lemma_leaf_accepts(TransitionType::Symbol(symbol), first, text);
        },
        RegexAST::EmptyString => {
            lemma_leaf_accepts(TransitionType::Epsilon, first, text);
        },
        RegexAST::CharacterClass(class) => {
            lemma_built_class_accepts(class, first, text);
        },
        RegexAST::Binary(lhs, BinaryOp::Union, rhs) => {
            let mid = first + state_count(*lhs);
            let high = mid + state_count(*rhs);
            lemma_built_within(*lhs, first);
            lemma_built_within(*rhs, mid);
            lemma_built_accepts(*lhs, first, text);
            lemma_built_accepts(*rhs, mid, text);
            lemma_fork_accepts(built(*lhs, first), built(*rhs, mid), first, mid, high, text);
        },
        RegexAST::Binary(lhs, BinaryOp::Concatenation, rhs) => {
            let mid = first + state_count(*lhs);
            let high = mid + state_count(*rhs);
            lemma_built_within(*lhs, first);
            lemma_built_within(*rhs, mid);
            let left = built(*lhs, first);
            let right = built(*rhs, mid);
            lemma_chain_accepts(left, right, first, mid, high, text);
            if accepts(built(tree, first), text) {
                let cut = choose|cut: int|
                    0 <= cut <= text.len() && #[trigger] accepts(left, text.take(cut)) && accepts(
                        right,
                        text.skip(cut),
                    );
                lemma_built_accepts(*lhs, first, text.take(cut));
                lemma_built_accepts(*rhs, mid, text.skip(cut));
                assert(cut_at(text, cut) && tree_matches(*lhs, text.take(cut)) && tree_matches(
                    *rhs,
                    text.skip(cut),
                ));
            }
            if tree_matches(tree, text) {
                let cut = choose|cut: int|
                    #[trigger] cut_at(text, cut) && tree_matches(*lhs, text.take(cut))
                        && tree_matches(*rhs, text.skip(cut));
                lemma_built_accepts(*lhs, first, text.take(cut));
                lemma_built_accepts(*rhs, mid, text.skip(cut));
                assert(accepts(left, text.take(cut)) && accepts(right, text.skip(cut)));
            }
        },
        RegexAST::Unary(child, op) => {
            let high = first + state_count(*child);
            let inner = built(*child, first);
            lemma_built_within(*child, first);
            lemma_repeat_accepts(inner, op, first, high, text);
            if accepts(built(tree, first), text) {
                let count = choose|count: nat|
                    (op is ClosureStar || count >= 1) && #[trigger] accepts_in_row(
                        inner,
                        text,
                        count,
                    );
                lemma_built_rows(*child, first, text, count);
                assert(at_least(count, 1) || op is ClosureStar);
                assert(at_least(count, 0) && repeats(*child, text, count));
            }
            if tree_matches(tree, text) {
                let least: nat = if op is ClosureStar {
                    0
                } else {
                    1
                };
                let count = choose|count: nat|
                    #[trigger] at_least(count, least) && repeats(*child, text, count);
                lemma_built_rows(*child, first, text, count);
                assert(accepts_in_row(inner, text, count));
            }
        },
    }
}

} // verus!

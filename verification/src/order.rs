//! Lists of keys kept in ascending order, each key once.

use vstd::prelude::*;

verus! {

/// A key: three numbers, compared one after the other.
pub type Key = (usize, u32, usize);

/// Whether the first key stands before the second.
pub open spec fn key_lt(first: Key, second: Key) -> bool {
    first.0 < second.0 || (first.0 == second.0 && (first.1 < second.1 || (first.1 == second.1
        && first.2 < second.2)))
}

/// Whether every key stands before the keys after it.
pub open spec fn ascending(keys: Seq<Key>) -> bool {
    forall|i: int, j: int|
        0 <= i < j < keys.len() ==> key_lt(#[trigger] keys[i], #[trigger] keys[j])
}

fn key_less(first: &Key, second: &Key) -> (less: bool)
    ensures
        less == key_lt(*first, *second),
{
    first.0 < second.0 || (first.0 == second.0 && (first.1 < second.1 || (first.1 == second.1
        && first.2 < second.2)))
}

fn key_same(first: &Key, second: &Key) -> (same: bool)
    ensures
        same == (*first == *second),
{
    first.0 == second.0 && first.1 == second.1 && first.2 == second.2
}

/// Two ascending lists of the same keys are the same list.
pub proof fn lemma_ascending_unique(first: Seq<Key>, second: Seq<Key>)
    requires
        ascending(first),
        ascending(second),
        first.to_set() == second.to_set(),
    ensures
        first == second,
    decreases first.len(),
{
    if first.len() == 0 {
        if second.len() > 0 {
            assert(second.to_set().contains(second[0]));
            assert(first.contains(second[0]));
        }
        assert(first =~= second);
    } else {
        let top = first.last();
        assert(first.to_set().contains(top));
        assert(second.contains(top));
        let at = choose|at: int| 0 <= at < second.len() && second[at] == top;
        let other = second.last();
        assert(second.to_set().contains(other));
        assert(first.contains(other));
        let back = choose|back: int| 0 <= back < first.len() && first[back] == other;
        assert(at == second.len() - 1) by {
            if at < second.len() - 1 {
                assert(key_lt(second[at], second[second.len() - 1]));
                if back < first.len() - 1 {
                    assert(key_lt(first[back], first[first.len() - 1]));
                }
            }
        }
        let shorter = first.drop_last();
        let rest = second.drop_last();
        assert forall|key: Key| shorter.to_set().contains(key) <==> rest.to_set().contains(
            key,
        ) by {
            if shorter.contains(key) {
                let i = choose|i: int| 0 <= i < shorter.len() && shorter[i] == key;
                assert(first[i] == key);
                assert(key_lt(first[i], first[first.len() - 1]));
                assert(first.to_set().contains(key));
                assert(second.contains(key));
                let j = choose|j: int| 0 <= j < second.len() && second[j] == key;
                assert(rest[j] == key);
            }
            if rest.contains(key) {
                let j = choose|j: int| 0 <= j < rest.len() && rest[j] == key;
                assert(second[j] == key);
                assert(key_lt(second[j], second[second.len() - 1]));
                assert(second.to_set().contains(key));
                assert(first.contains(key));
                let i = choose|i: int| 0 <= i < first.len() && first[i] == key;
                assert(shorter[i] == key);
            }
        }
        assert(shorter.to_set() =~= rest.to_set());
        assert(ascending(shorter)) by {
            assert forall|i: int, j: int| 0 <= i < j < shorter.len() implies key_lt(
                #[trigger] shorter[i],
                #[trigger] shorter[j],
            ) by {
                assert(key_lt(first[i], first[j]));
            }
        }
        assert(ascending(rest)) by {
            assert forall|i: int, j: int| 0 <= i < j < rest.len() implies key_lt(
                #[trigger] rest[i],
                #[trigger] rest[j],
            ) by {
                assert(key_lt(second[i], second[j]));
            }
        }
        lemma_ascending_unique(shorter, rest);
        assert(first =~= shorter.push(top));
        assert(second =~= rest.push(top));
    }
}

/// Puts the key at its place in the ascending list, unless it is there.
/// Gives the place of the key, and whether it was put there now.
pub fn insert_ascending(keys: &mut Vec<Key>, key: Key) -> (placed: (usize, bool))
    requires
        ascending(old(keys)@),
    ensures
        ascending(final(keys)@),
        placed.0 <= old(keys)@.len(),
        placed.1 == !old(keys)@.contains(key),
        placed.1 ==> final(keys)@ == old(keys)@.insert(placed.0 as int, key),
        !placed.1 ==> final(keys)@ == old(keys)@ && placed.0 < old(keys)@.len() && old(
            keys,
        )@[placed.0 as int] == key,
        final(keys)@.to_set() == old(keys)@.to_set().insert(key),
{
    let ghost before = keys@;
    let mut place: usize = keys.len();
    while place > 0 && key_less(&key, &keys[place - 1])
        invariant
            keys@ == before,
            ascending(before),
            place <= before.len(),
            forall|i: int| place <= i < before.len() ==> key_lt(key, #[trigger] before[i]),
        decreases place,
    {
        place -= 1;
    }
    if place > 0 && key_same(&keys[place - 1], &key) {
        proof {
            assert(before.contains(key));
            assert(before.to_set().insert(key) =~= before.to_set());
        }
        (place - 1, false)
    } else {
        proof {
            assert forall|i: int| 0 <= i < place implies key_lt(#[trigger] before[i], key) by {
                if i < place - 1 {
                    assert(key_lt(before[i], before[place - 1]));
                }
            }
            assert(!before.contains(key)) by {
                if before.contains(key) {
                    let i = choose|i: int| 0 <= i < before.len() && before[i] == key;
                    if i < place {
                        assert(key_lt(before[i], key));
                    } else {
                        assert(key_lt(key, before[i]));
                    }
                }
            }
        }
        keys.insert(place, key);
        proof {
            let after = before.insert(place as int, key);
            assert(keys@ == after);
            assert forall|i: int, j: int| 0 <= i < j < after.len() implies key_lt(
                #[trigger] after[i],
                #[trigger] after[j],
            ) by {
                let a = if i < place { i } else { i - 1 };
                let b = if j < place { j } else { j - 1 };
                if i != place && j != place {
                    assert(key_lt(before[a], before[b]));
                } else if i == place {
                    assert(key_lt(key, before[b]));
                } else {
                    assert(key_lt(before[a], key));
                }
            }
            assert forall|other: Key| after.to_set().contains(other) <==> before.to_set().insert(
                key,
            ).contains(other) by {
                if after.contains(other) {
                    let i = choose|i: int| 0 <= i < after.len() && after[i] == other;
                    if i < place {
                        assert(before[i] == other);
                    } else if i > place {
                        assert(before[i - 1] == other);
                    }
                }
                if before.contains(other) {
                    let i = choose|i: int| 0 <= i < before.len() && before[i] == other;
                    if i < place {
                        assert(after[i] == other);
                    } else {
                        assert(after[i + 1] == other);
                    }
                }
                if other == key {
                    assert(after[place as int] == key);
                }
            }
            assert(after.to_set() =~= before.to_set().insert(key));
        }
        (place, true)
    }
}

} // verus!

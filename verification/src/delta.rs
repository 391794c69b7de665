//! How two states differ.

use crate::keymap::{
    insert_key, names, names_ascend, picks, picks_one_more, picks_the_map, KeyMap,
};
use crate::log::{values_view, State};
use crate::value::{Value, ValueView};
use vstd::prelude::*;

verus! {

/// How one key differs between two states.
#[derive(Debug, Clone, PartialEq)]
pub enum Delta {
    /// Only the second state has the key.
    Added(Value),
    /// Only the first state has the key.
    Removed(Value),
    /// Both have the key, with unequal values.
    Changed { before: Value, after: Value },
}

/// The model of a `Delta`.
pub enum DeltaView {
    Added(ValueView),
    Removed(ValueView),
    Changed { before: ValueView, after: ValueView },
}

impl View for Delta {
    type V = DeltaView;

    open spec fn view(&self) -> DeltaView {
        match *self {
            Delta::Added(after) => DeltaView::Added(after@),
            Delta::Removed(before) => DeltaView::Removed(before@),
            Delta::Changed { before, after } => DeltaView::Changed {
                before: before@,
                after: after@,
            },
        }
    }
}

/// The model of deltas by key.
pub open spec fn deltas_view(deltas: Map<Seq<char>, Delta>) -> Map<Seq<char>, DeltaView> {
    deltas.map_values(|delta: Delta| delta@)
}

/// How a key differs between two states, if it does.
pub open spec fn delta_of(
    before: Map<Seq<char>, ValueView>,
    after: Map<Seq<char>, ValueView>,
    key: Seq<char>,
) -> Option<DeltaView> {
    match (before.contains_key(key), after.contains_key(key)) {
        (false, true) => Some(DeltaView::Added(after[key])),
        (true, false) => Some(DeltaView::Removed(before[key])),
        (true, true) => if before[key].equals(after[key]) {
            None
        } else {
            Some(DeltaView::Changed { before: before[key], after: after[key] })
        },
        (false, false) => None,
    }
}

/// The keys that differ between two states, and how.
pub open spec fn difference(
    before: Map<Seq<char>, ValueView>,
    after: Map<Seq<char>, ValueView>,
) -> Map<Seq<char>, DeltaView> {
    Map::new(
        |key: Seq<char>| delta_of(before, after, key) is Some,
        |key: Seq<char>| delta_of(before, after, key)->0,
    )
}

/// Adds the keys of a state to keys in order.
fn insert_keys(keys: &mut Vec<String>, state: &State)
    requires
        names_ascend(old(keys)@),
    ensures
        names_ascend(final(keys)@),
        forall|key: Seq<char>| #[trigger]
            names(final(keys)@, key) <==> names(old(keys)@, key) || state@.contains_key(key),
{
    let ghost first = keys@;
    let entries = state.entries();
    let mut i: usize = 0;
    while i < entries.len()
        invariant
            i <= entries@.len(),
            names_ascend(keys@),
            forall|key: Seq<char>| #[trigger]
                names(keys@, key) <==> names(first, key) || exists|k: int|
                    0 <= k < i && (#[trigger] entries@[k]).0@ == key,
        decreases entries@.len() - i,
    {
        let ghost before = keys@;
        insert_key(keys, &entries[i].0);
        proof {
            assert forall|key: Seq<char>| #[trigger] names(keys@, key) <==> names(first, key) || exists|k: int|
                0 <= k < i + 1 && (#[trigger] entries@[k]).0@ == key by {
                assert(names(keys@, key) <==> names(before, key) || key == entries@[i as int].0@);
            }
        }
        i = i + 1;
    }
}

/// How a key differs between two states, if it does.
fn delta_at(before: &State, after: &State, key: &str) -> (r: Option<Delta>)
    ensures
        r is Some <==> delta_of(values_view(before@), values_view(after@), key@) is Some,
        r matches Some(delta) ==> delta_of(values_view(before@), values_view(after@), key@) == Some(
            delta@,
        ),
{
    match (before.get(key), after.get(key)) {
        (None, Some(after)) => Some(Delta::Added(after.clone())),
        (Some(before), None) => Some(Delta::Removed(before.clone())),
        (Some(before), Some(after)) => {
            if *before == *after {
                None
            } else {
                Some(Delta::Changed { before: before.clone(), after: after.clone() })
            }
        },
        (None, None) => None,
    }
}

/// The keys that differ between two states, and how, in the order of the keys.
pub fn diff_states(before: &State, after: &State) -> (deltas: KeyMap<Delta>)
    ensures
        deltas_view(deltas@) == difference(values_view(before@), values_view(after@)),
{
    let ghost (x, y) = (values_view(before@), values_view(after@));
    let ghost pick = |key: Seq<char>| delta_of(x, y, key);
    let mut keys: Vec<String> = Vec::new();
    insert_keys(&mut keys, before);
    insert_keys(&mut keys, after);
    let mut entries: Vec<(String, Delta)> = Vec::new();
    let mut i: usize = 0;
    while i < keys.len()
        invariant
            i <= keys@.len(),
            x == values_view(before@),
            y == values_view(after@),
            pick == (|key: Seq<char>| delta_of(x, y, key)),
            names_ascend(keys@),
            picks(keys@.take(i as int), entries@, pick),
        decreases keys@.len() - i,
    {
        let key = &keys[i];
        let ghost so_far = entries@;
        match delta_at(before, after, key.as_str()) {
            Some(delta) => {
                entries.push((key.clone(), delta));
            },
            None => {},
        }
        proof {
            picks_one_more(keys@, i as int, so_far, entries@, pick);
        }
        i = i + 1;
    }
    let deltas = KeyMap::from_entries(entries);
    proof {
        assert(keys@.take(i as int) =~= keys@);
        picks_the_map(keys@, entries@, pick, deltas@);
        assert(deltas_view(deltas@) =~= difference(x, y));
    }
    deltas
}

/// A state differs from itself only in values that are not numbers.
pub proof fn only_nan_differs_from_itself(state: Map<Seq<char>, ValueView>, key: Seq<char>)
    ensures
        difference(state, state).contains_key(key) <==> state.contains_key(key)
            && state[key].is_nan(),
{
}

impl DeltaView {
    /// The delta of the states in the other order.
    pub open spec fn reversed(self) -> DeltaView {
        match self {
            DeltaView::Added(value) => DeltaView::Removed(value),
            DeltaView::Removed(value) => DeltaView::Added(value),
            DeltaView::Changed { before, after } => DeltaView::Changed {
                before: after,
                after: before,
            },
        }
    }
}

/// With the states in the other order, the same keys differ, and the deltas are
/// reversed.
pub proof fn a_difference_reverses(
    before: Map<Seq<char>, ValueView>,
    after: Map<Seq<char>, ValueView>,
)
    ensures
        difference(after, before) == difference(before, after).map_values(
            |delta: DeltaView| delta.reversed(),
        ),
{
    assert(difference(after, before) =~= difference(before, after).map_values(
        |delta: DeltaView| delta.reversed(),
    ));
}

/// What a key has after a difference is applied to a state.
pub open spec fn patched(
    state: Map<Seq<char>, ValueView>,
    deltas: Map<Seq<char>, DeltaView>,
    key: Seq<char>,
) -> Option<ValueView> {
    if deltas.contains_key(key) {
        match deltas[key] {
            DeltaView::Added(value) => Some(value),
            DeltaView::Removed(_) => None,
            DeltaView::Changed { after, .. } => Some(after),
        }
    } else if state.contains_key(key) {
        Some(state[key])
    } else {
        None
    }
}

/// A difference leads from the first state to the second: the keys are the same,
/// and the values are the same or equal.
pub proof fn a_difference_leads_to_the_second_state(
    before: Map<Seq<char>, ValueView>,
    after: Map<Seq<char>, ValueView>,
    key: Seq<char>,
)
    ensures
        match patched(before, difference(before, after), key) {
            Some(value) => after.contains_key(key) && (value == after[key] || value.equals(after[key])),
            None => !after.contains_key(key),
        },
{
}

/// What a difference tells of a key: that only the second state has it, with its value
/// there; that only the first has it, with its value there; or that both have it, with
/// both values, which are not the same. It tells nothing of a key that neither has, nor
/// of one that has the same value in both, unless that is a float that is not a number.
pub proof fn a_difference_tells(
    before: Map<Seq<char>, ValueView>,
    after: Map<Seq<char>, ValueView>,
    key: Seq<char>,
)
    ensures
        ({
            let deltas = difference(before, after);
            match (before.contains_key(key), after.contains_key(key)) {
                (false, false) => !deltas.contains_key(key),
                (false, true) => deltas.contains_key(key) && deltas[key] == DeltaView::Added(
                    after[key],
                ),
                (true, false) => deltas.contains_key(key) && deltas[key] == DeltaView::Removed(
                    before[key],
                ),
                (true, true) => {
                    &&& before[key] != after[key] && !(before[key] is Float && after[key] is Float)
                        ==> deltas.contains_key(key)
                    &&& before[key] == after[key] && !(before[key] is Float)
                        ==> !deltas.contains_key(key)
                    &&& before[key] matches ValueView::Float(x) ==> after[key] matches ValueView::Float(
                        y,
                    ) ==> {
                        deltas.contains_key(key) <==> {
                            ||| x % 0x8000_0000_0000_0000 > 0x7ff0_0000_0000_0000
                            ||| y % 0x8000_0000_0000_0000 > 0x7ff0_0000_0000_0000
                            ||| x != y && (x % 0x8000_0000_0000_0000 != 0 || y
                                % 0x8000_0000_0000_0000 != 0)
                        }
                    }
                    &&& deltas.contains_key(key) ==> deltas[key] == (DeltaView::Changed {
                        before: before[key],
                        after: after[key],
                    })
                },
            }
        }),
{
}

/// Applied to the first state, a difference gives exactly the value of the second for
/// every key whose value there is not a float, and no value for a key that the second
/// does not have.
pub proof fn a_difference_gives_the_second_state(
    before: Map<Seq<char>, ValueView>,
    after: Map<Seq<char>, ValueView>,
    key: Seq<char>,
)
    ensures
        !after.contains_key(key) ==> {
            ||| !before.contains_key(key) && !difference(before, after).contains_key(key)
            ||| difference(before, after).contains_key(key) && difference(before, after)[key] is Removed
        },
        after.contains_key(key) && !(after[key] is Float) ==> {
            ||| !difference(before, after).contains_key(key) && before.contains_key(key)
                && before[key] == after[key]
            ||| difference(before, after).contains_key(key) && difference(before, after)[key]
                == DeltaView::Added(after[key])
            ||| difference(before, after).contains_key(key) && (
            difference(before, after)[key] matches DeltaView::Changed { after: value, .. }
                && value == after[key])
        },
{
}

/// Comparing two states finds, key by key, what was added, removed and changed, with
/// the values that the states have.
pub proof fn states_compare(before: &State, after: &State, deltas: KeyMap<Delta>, key: Seq<char>)
    requires
        call_ensures(diff_states, (before, after), deltas),
    ensures
        !before@.contains_key(key) && !after@.contains_key(key) ==> !deltas@.contains_key(key),
        !before@.contains_key(key) && after@.contains_key(key) ==> deltas@.contains_key(key) && (
        deltas@[key] matches Delta::Added(value) && value@ == after@[key]@),
        before@.contains_key(key) && !after@.contains_key(key) ==> deltas@.contains_key(key) && (
        deltas@[key] matches Delta::Removed(value) && value@ == before@[key]@),
        before@.contains_key(key) && after@.contains_key(key) ==> {
            let (x, y) = (before@[key]@, after@[key]@);
            &&& deltas@.contains_key(key) ==> (deltas@[key] matches Delta::Changed {
                before: first,
                after: second,
            } && first@ == x && second@ == y)
            &&& !(x is Float && y is Float) ==> (deltas@.contains_key(key) <==> x != y)
        },
{
    let (x, y) = (values_view(before@), values_view(after@));
    assert(deltas_view(deltas@).contains_key(key) <==> deltas@.contains_key(key));
    assert(deltas_view(deltas@) == difference(x, y));
    a_difference_tells(x, y, key);
}

} // verus!

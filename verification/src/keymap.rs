//! A map from keys, in the order of the keys.

use crate::text::{key_lt, key_lt_irreflexive, key_lt_transitive, order_of, Order};
use vstd::prelude::*;

verus! {

/// A map from keys to `V`, as a list of entries in the order of their keys.
#[derive(Debug, PartialEq)]
pub struct KeyMap<V> {
    entries: Vec<(String, V)>,
}

/// Whether entries stand in the order of their keys, with no key twice.
pub open spec fn keys_ascend<V>(entries: Seq<(String, V)>) -> bool {
    forall|i: int, j: int|
        0 <= i < j < entries.len() ==> key_lt((#[trigger] entries[i]).0@, (#[trigger] entries[j]).0@)
}

/// Whether entries are those of a map.
pub open spec fn lists<V>(entries: Seq<(String, V)>, map: Map<Seq<char>, V>) -> bool {
    &&& forall|i: int|
        0 <= i < entries.len() ==> map.contains_key((#[trigger] entries[i]).0@)
            && map[entries[i].0@] == entries[i].1
    &&& forall|key: Seq<char>| #[trigger]
        map.contains_key(key) ==> exists|i: int|
            0 <= i < entries.len() && (#[trigger] entries[i]).0@ == key
}

/// The map that entries list.
spec fn listed<V>(entries: Seq<(String, V)>) -> Map<Seq<char>, V> {
    Map::new(
        |key: Seq<char>| exists|i: int| 0 <= i < entries.len() && (#[trigger] entries[i]).0@ == key,
        |key: Seq<char>|
            entries[choose|i: int| 0 <= i < entries.len() && (#[trigger] entries[i]).0@ == key].1,
    )
}

proof fn lists_listed<V>(entries: Seq<(String, V)>)
    requires
        keys_ascend(entries),
    ensures
        lists(entries, listed(entries)),
{
    let map = listed(entries);
    assert forall|i: int| 0 <= i < entries.len() implies map.contains_key((#[trigger] entries[i]).0@)
        && map[entries[i].0@] == entries[i].1 by {
        let key = entries[i].0@;
        let j = choose|j: int| 0 <= j < entries.len() && (#[trigger] entries[j]).0@ == key;
        key_lt_irreflexive(key);
        if i < j {
            assert(key_lt(entries[i].0@, entries[j].0@));
        } else if j < i {
            assert(key_lt(entries[j].0@, entries[i].0@));
        }
    }
}

impl<V> View for KeyMap<V> {
    type V = Map<Seq<char>, V>;

    closed spec fn view(&self) -> Map<Seq<char>, V> {
        listed(self.entries@)
    }
}

impl<V> KeyMap<V> {
    #[verifier::type_invariant]
    spec fn in_order(self) -> bool {
        keys_ascend(self.entries@)
    }

    /// The map that entries in the order of their keys list.
    pub(crate) fn from_entries(entries: Vec<(String, V)>) -> (map: KeyMap<V>)
        requires
            keys_ascend(entries@),
        ensures
            lists(entries@, map@),
    {
        proof {
            lists_listed(entries@);
        }
        KeyMap { entries }
    }

    /// The entries, in the order of their keys.
    pub fn entries(&self) -> (entries: &Vec<(String, V)>)
        ensures
            keys_ascend(entries@),
            lists(entries@, self@),
    {
        proof {
            use_type_invariant(self);
            lists_listed(self.entries@);
        }
        &self.entries
    }

    /// Whether the map holds no key.
    pub fn is_empty(&self) -> (b: bool)
        ensures
            b <==> forall|key: Seq<char>| !(#[trigger] self@.contains_key(key)),
    {
        let entries = self.entries();
        proof {
            if entries@.len() > 0 {
                assert(self@.contains_key(entries@[0].0@));
            }
        }
        entries.len() == 0
    }

    /// What the map holds for a key.
    pub fn get(&self, key: &str) -> (r: Option<&V>)
        ensures
            r is Some <==> self@.contains_key(key@),
            r matches Some(value) ==> *value == self@[key@],
    {
        let entries = self.entries();
        let mut low: usize = 0;
        let mut high: usize = entries.len();
        while low < high
            invariant
                low <= high <= entries@.len(),
                keys_ascend(entries@),
                lists(entries@, self@),
                forall|i: int| 0 <= i < low ==> key_lt((#[trigger] entries@[i]).0@, key@),
                forall|i: int| high <= i < entries@.len() ==> key_lt(key@, (#[trigger] entries@[i]).0@),
            decreases high - low,
        {
            let middle: usize = low + (high - low) / 2;
            match order_of(entries[middle].0.as_str(), key) {
                Order::Equal => {
                    return Some(&entries[middle].1);
                },
                Order::Less => {
                    assert forall|i: int| 0 <= i <= middle implies key_lt((#[trigger] entries@[i]).0@, key@) by {
                        if i < middle {
                            key_lt_transitive(entries@[i].0@, entries@[middle as int].0@, key@);
                        }
                    }
                    low = middle + 1;
                },
                Order::Greater => {
                    assert forall|i: int| middle <= i < entries@.len() implies key_lt(key@, (#[trigger] entries@[i]).0@) by {
                        if middle < i {
                            key_lt_transitive(key@, entries@[middle as int].0@, entries@[i].0@);
                        }
                    }
                    high = middle;
                },
            }
        }
        proof {
            key_lt_irreflexive(key@);
        }
        None
    }
}

/// Whether keys ascend, with none twice.
pub open spec fn names_ascend(keys: Seq<String>) -> bool {
    forall|i: int, j: int|
        0 <= i < j < keys.len() ==> key_lt((#[trigger] keys[i])@, (#[trigger] keys[j])@)
}

/// Whether a key is among keys.
pub open spec fn names(keys: Seq<String>, key: Seq<char>) -> bool {
    exists|i: int| 0 <= i < keys.len() && (#[trigger] keys[i])@ == key
}

/// Puts a key in its place among keys in order, unless it is there.
pub(crate) fn insert_key(keys: &mut Vec<String>, key: &String)
    requires
        names_ascend(old(keys)@),
    ensures
        names_ascend(final(keys)@),
        forall|name: Seq<char>| #[trigger]
            names(final(keys)@, name) <==> names(old(keys)@, name) || name == key@,
{
    let ghost before = keys@;
    let mut low: usize = 0;
    let mut high: usize = keys.len();
    while low < high
        invariant
            keys@ == before,
            low <= high <= before.len(),
            names_ascend(before),
            forall|i: int| 0 <= i < low ==> key_lt((#[trigger] before[i])@, key@),
            forall|i: int| high <= i < before.len() ==> key_lt(key@, (#[trigger] before[i])@),
        decreases high - low,
    {
        let middle: usize = low + (high - low) / 2;
        match order_of(keys[middle].as_str(), key.as_str()) {
            Order::Equal => {
                assert(before[middle as int]@ == key@);
                assert(names(before, key@));
                return ;
            },
            Order::Less => {
                assert forall|i: int| 0 <= i <= middle implies key_lt((#[trigger] before[i])@, key@) by {
                    if i < middle {
                        key_lt_transitive(before[i]@, before[middle as int]@, key@);
                    }
                }
                low = middle + 1;
            },
            Order::Greater => {
                assert forall|i: int| middle <= i < before.len() implies key_lt(
                    key@,
                    (#[trigger] before[i])@,
                ) by {
                    if middle < i {
                        key_lt_transitive(key@, before[middle as int]@, before[i]@);
                    }
                }
                high = middle;
            },
        }
    }
    keys.insert(low, key.clone());
    proof {
        let after = keys@;
        assert(after[low as int]@ == key@);
        assert forall|name: Seq<char>| #[trigger]
            names(after, name) <==> names(before, name) || name == key@ by {
            if names(after, name) {
                let i = choose|i: int| 0 <= i < after.len() && (#[trigger] after[i])@ == name;
                if i < low {
                    assert(before[i]@ == name);
                } else if i > low {
                    assert(before[i - 1]@ == name);
                }
            }
            if names(before, name) {
                let i = choose|i: int| 0 <= i < before.len() && (#[trigger] before[i])@ == name;
                if i < low {
                    assert(after[i]@ == name);
                } else {
                    assert(after[i + 1]@ == name);
                }
            }
        }
        assert forall|i: int, j: int| 0 <= i < j < after.len() implies key_lt(
            (#[trigger] after[i])@,
            (#[trigger] after[j])@,
        ) by {
            if i != low {
                assert(after[i] == before[if i < low { i } else { i - 1 }]);
            }
            if j != low {
                assert(after[j] == before[if j < low { j } else { j - 1 }]);
            }
        }
    }
}

/// Whether entries are the keys for which `pick` gives something, in order, with
/// what it gives.
pub open spec fn picks<V: View>(
    keys: Seq<String>,
    entries: Seq<(String, V)>,
    pick: spec_fn(Seq<char>) -> Option<V::V>,
) -> bool {
    &&& keys_ascend(entries)
    &&& forall|k: int|
        0 <= k < entries.len() ==> names(keys, (#[trigger] entries[k]).0@) && pick(entries[k].0@)
            == Some(entries[k].1@)
    &&& forall|key: Seq<char>| #[trigger]
        names(keys, key) && pick(key) is Some ==> exists|k: int|
            0 <= k < entries.len() && (#[trigger] entries[k]).0@ == key
}

/// One more key is picked, or it is not.
pub(crate) proof fn picks_one_more<V: View>(
    keys: Seq<String>,
    i: int,
    before: Seq<(String, V)>,
    after: Seq<(String, V)>,
    pick: spec_fn(Seq<char>) -> Option<V::V>,
)
    requires
        0 <= i < keys.len(),
        names_ascend(keys),
        picks(keys.take(i), before, pick),
        match pick(keys[i]@) {
            None => after == before,
            Some(picked) => {
                &&& after.len() == before.len() + 1
                &&& after.drop_last() =~= before
                &&& after.last().0@ == keys[i]@
                &&& after.last().1@ == picked
            },
        },
    ensures
        picks(keys.take(i + 1), after, pick),
{
    let (less, more) = (keys.take(i), keys.take(i + 1));
    assert(more[i] == keys[i]);
    assert forall|key: Seq<char>| #[trigger] names(more, key) implies names(less, key) || key
        == keys[i]@ by {
        let j = choose|j: int| 0 <= j < more.len() && (#[trigger] more[j])@ == key;
        if j < i {
            assert(less[j]@ == key);
        }
    }
    assert forall|key: Seq<char>| #[trigger] names(less, key) implies names(more, key) && key_lt(
        key,
        keys[i]@,
    ) by {
        let j = choose|j: int| 0 <= j < less.len() && (#[trigger] less[j])@ == key;
        assert(more[j]@ == key);
        assert(keys[j]@ == key);
    }
    assert forall|k: int| 0 <= k < before.len() implies #[trigger] after[k] == before[k] by {
        if after != before {
            assert(after.drop_last()[k] == before[k]);
        }
    }
    assert forall|k: int| 0 <= k < after.len() implies names(more, (#[trigger] after[k]).0@) && pick(
        after[k].0@,
    ) == Some(after[k].1@) by {
        if k < before.len() {
            assert(names(less, before[k].0@));
        } else {
            assert(more[i]@ == after[k].0@);
        }
    }
    assert forall|key: Seq<char>| #[trigger] names(more, key) && pick(key) is Some implies exists|k: int|
        0 <= k < after.len() && (#[trigger] after[k]).0@ == key by {
        if names(less, key) {
            let k = choose|k: int| 0 <= k < before.len() && (#[trigger] before[k]).0@ == key;
            assert(after[k].0@ == key);
        } else {
            assert(after[before.len() as int].0@ == key);
        }
    }
    assert forall|a: int, b: int| 0 <= a < b < after.len() implies key_lt(
        (#[trigger] after[a]).0@,
        (#[trigger] after[b]).0@,
    ) by {
        assert(after[a] == before[a]);
        if b < before.len() {
            assert(after[b] == before[b]);
        } else {
            assert(names(less, before[a].0@));
        }
    }
}

/// When every key for which `pick` gives something was tried, the map of what was
/// picked holds those keys and no others, with what `pick` gives.
pub(crate) proof fn picks_the_map<V: View>(
    keys: Seq<String>,
    entries: Seq<(String, V)>,
    pick: spec_fn(Seq<char>) -> Option<V::V>,
    map: Map<Seq<char>, V>,
)
    requires
        forall|key: Seq<char>| #[trigger] pick(key) is Some ==> names(keys, key),
        picks(keys, entries, pick),
        lists(entries, map),
    ensures
        forall|key: Seq<char>| #[trigger] map.contains_key(key) <==> pick(key) is Some,
        forall|key: Seq<char>| #[trigger] map.contains_key(key) ==> pick(key) == Some(map[key]@),
{
    assert forall|key: Seq<char>| #[trigger] map.contains_key(key) implies pick(key) == Some(map[key]@) by {
        let k = choose|k: int| 0 <= k < entries.len() && (#[trigger] entries[k]).0@ == key;
        assert(pick(entries[k].0@) == Some(entries[k].1@));
    }
    assert forall|key: Seq<char>| pick(key) is Some implies #[trigger] map.contains_key(key) by {
        assert(names(keys, key));
        let k = choose|k: int| 0 <= k < entries.len() && (#[trigger] entries[k]).0@ == key;
        assert(map.contains_key(entries[k].0@));
    }
}

/// What a map gives for a key is what it lists for it, and the list is in the order of
/// the keys.
pub proof fn a_map_gives_what_it_lists<V>(
    map: &KeyMap<V>,
    key: &str,
    entries: &Vec<(String, V)>,
    r: Option<&V>,
    empty: bool,
)
    requires
        call_ensures(KeyMap::<V>::entries, (map,), entries),
        call_ensures(KeyMap::<V>::get, (map, key), r),
        call_ensures(KeyMap::<V>::is_empty, (map,), empty),
    ensures
        forall|i: int, j: int|
            0 <= i < j < entries@.len() ==> key_lt(
                (#[trigger] entries@[i]).0@,
                (#[trigger] entries@[j]).0@,
            ),
        forall|i: int|
            0 <= i < entries@.len() && (#[trigger] entries@[i]).0@ == key@ ==> r == Some(
                &entries@[i].1,
            ),
        r is Some ==> exists|i: int|
            0 <= i < entries@.len() && (#[trigger] entries@[i]).0@ == key@,
        empty <==> entries@.len() == 0,
{
    if entries@.len() > 0 {
        assert(map@.contains_key(entries@[0].0@));
    } else {
        assert forall|name: Seq<char>| !(#[trigger] map@.contains_key(name)) by {
            if map@.contains_key(name) {
                let i = choose|i: int| 0 <= i < entries@.len() && (#[trigger] entries@[i]).0@ == name;
            }
        }
    }
}

} // verus!

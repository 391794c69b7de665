//! Writes, and the assertions that a commit makes of them.

use crate::text::{
    key_lt, key_lt_asymmetric, key_lt_irreflexive, key_lt_total, key_lt_transitive, order_of, Order,
};
use crate::time::{truncated, Timestamp};
use crate::value::{optional, Value, ValueView};
use vstd::prelude::*;

verus! {

/// `String: From<&str>`: the string holds the text that was given.
pub assume_specification<'a>[ <String as core::convert::From<&'a str>>::from ](text: &str) -> (r:
    String)
    ensures
        r@ == text@,
;

/// Every type is `From` itself: what was given comes back unchanged.
pub assume_specification<T>[ <T as core::convert::From<T>>::from ](value: T) -> (r: T)
    ensures
        r == value,
;

/// Whether `Into` can turn `from` into `to`.
pub open spec fn converts<A: Into<B>, B>(from: A, to: B) -> bool {
    call_ensures(<A as Into<B>>::into, (from,), to)
}

/// From when a write is valid.
#[derive(Debug, Clone, Copy)]
enum ValidFrom {
    /// From the time of its commit.
    Commit,
    /// From a time that its author chose.
    At(Timestamp),
}

/// An assertion to be committed: a key is set or deleted from some time on.
#[derive(Debug)]
pub struct Write {
    key: String,
    valid_from: ValidFrom,
    value: Option<Value>,
}

/// The model of a `Write`: its valid time in microseconds, or `None` if it is
/// that of the commit, and its value, or `None` if it is a deletion.
#[verifier::ext_equal]
pub struct WriteView {
    pub key: Seq<char>,
    pub valid: Option<int>,
    pub value: Option<ValueView>,
}

impl View for Write {
    type V = WriteView;

    closed spec fn view(&self) -> WriteView {
        WriteView {
            key: self.key@,
            valid: match self.valid_from {
                ValidFrom::Commit => None,
                ValidFrom::At(time) => Some(truncated(time@)),
            },
            value: optional(self.value),
        }
    }
}

impl Write {
    /// Sets a key from the time of the commit on.
    pub fn set<K: Into<String>, V: Into<Value>>(key: K, value: V) -> (write: Write)
        ensures
            exists|k: String, v: Value|
                {
                    &&& #[trigger] converts(key, k)
                    &&& #[trigger] converts(value, v)
                    &&& write@ == (WriteView { key: k@, valid: None, value: Some(v@) })
                },
    {
        let k: String = key.into();
        let v: Value = value.into();
        assert(converts(key, k) && converts(value, v));
        Write { key: k, valid_from: ValidFrom::Commit, value: Some(v) }
    }

    /// Sets a key from `valid_from` on.
    pub fn set_at<K: Into<String>, V: Into<Value>>(key: K, value: V, valid_from: Timestamp) -> (write:
        Write)
        ensures
            exists|k: String, v: Value|
                {
                    &&& #[trigger] converts(key, k)
                    &&& #[trigger] converts(value, v)
                    &&& write@ == (WriteView {
                        key: k@,
                        valid: Some(truncated(valid_from@)),
                        value: Some(v@),
                    })
                },
    {
        let k: String = key.into();
        let v: Value = value.into();
        assert(converts(key, k) && converts(value, v));
        Write { key: k, valid_from: ValidFrom::At(valid_from), value: Some(v) }
    }

    /// Deletes a key from the time of the commit on.
    pub fn delete<K: Into<String>>(key: K) -> (write: Write)
        ensures
            exists|k: String|
                {
                    &&& #[trigger] converts(key, k)
                    &&& write@ == (WriteView { key: k@, valid: None, value: None })
                },
    {
        let k: String = key.into();
        assert(converts(key, k));
        Write { key: k, valid_from: ValidFrom::Commit, value: None }
    }

    /// Deletes a key from `valid_from` on.
    pub fn delete_at<K: Into<String>>(key: K, valid_from: Timestamp) -> (write: Write)
        ensures
            exists|k: String|
                {
                    &&& #[trigger] converts(key, k)
                    &&& write@ == (WriteView {
                        key: k@,
                        valid: Some(truncated(valid_from@)),
                        value: None,
                    })
                },
    {
        let k: String = key.into();
        assert(converts(key, k));
        Write { key: k, valid_from: ValidFrom::At(valid_from), value: None }
    }
}

/// A write whose valid time, in microseconds, is settled.
#[derive(Debug)]
pub struct ResolvedWrite {
    pub key: String,
    pub valid_from: i64,
    pub value: Option<Value>,
}

/// The model of a `ResolvedWrite`.
#[verifier::ext_equal]
pub struct ResolvedView {
    pub key: Seq<char>,
    pub valid: int,
    pub value: Option<ValueView>,
}

impl View for ResolvedWrite {
    type V = ResolvedView;

    open spec fn view(&self) -> ResolvedView {
        ResolvedView {
            key: self.key@,
            valid: self.valid_from as int,
            value: optional(self.value),
        }
    }
}

/// The models of writes.
pub open spec fn writes_view(writes: Seq<Write>) -> Seq<WriteView> {
    writes.map_values(|write: Write| write@)
}

/// The models of resolved writes.
pub open spec fn resolved_view(resolved: Seq<ResolvedWrite>) -> Seq<ResolvedView> {
    resolved.map_values(|write: ResolvedWrite| write@)
}

impl WriteView {
    /// The write in a commit at `commit_micros`.
    pub open spec fn resolved(self, commit_micros: int) -> ResolvedView {
        ResolvedView {
            key: self.key,
            valid: match self.valid {
                Some(valid) => valid,
                None => commit_micros,
            },
            value: self.value,
        }
    }
}

/// The order of assertions by key, and by valid time for one key.
pub open spec fn slot_lt(key1: Seq<char>, valid1: int, key2: Seq<char>, valid2: int) -> bool {
    key_lt(key1, key2) || (key1 == key2 && valid1 < valid2)
}

/// Two places in the order of assertions are the same, or one is below the other,
/// and only one of these holds.
pub proof fn slot_lt_trichotomy(key1: Seq<char>, valid1: int, key2: Seq<char>, valid2: int)
    ensures
        (key1 == key2 && valid1 == valid2) || slot_lt(key1, valid1, key2, valid2) || slot_lt(
            key2,
            valid2,
            key1,
            valid1,
        ),
        slot_lt(key1, valid1, key2, valid2) ==> !slot_lt(key2, valid2, key1, valid1),
        slot_lt(key1, valid1, key2, valid2) ==> !(key1 == key2 && valid1 == valid2),
{
    key_lt_total(key1, key2);
    key_lt_irreflexive(key1);
    if key_lt(key1, key2) {
        key_lt_asymmetric(key1, key2);
    }
    if key_lt(key2, key1) {
        key_lt_asymmetric(key2, key1);
    }
}

/// The order of assertions is transitive.
pub proof fn slot_lt_transitive(
    key1: Seq<char>,
    valid1: int,
    key2: Seq<char>,
    valid2: int,
    key3: Seq<char>,
    valid3: int,
)
    requires
        slot_lt(key1, valid1, key2, valid2),
        slot_lt(key2, valid2, key3, valid3),
    ensures
        slot_lt(key1, valid1, key3, valid3),
{
    if key_lt(key1, key2) && key_lt(key2, key3) {
        key_lt_transitive(key1, key2, key3);
    }
}

/// Whether resolved writes stand in the order of their keys and valid times, with
/// no two at the same place.
pub open spec fn slots_ascend(resolved: Seq<ResolvedView>) -> bool {
    forall|i: int, j: int|
        0 <= i < j < resolved.len() ==> slot_lt(
            (#[trigger] resolved[i]).key,
            resolved[i].valid,
            (#[trigger] resolved[j]).key,
            resolved[j].valid,
        )
}

/// Whether two resolved writes are for the same key and valid time.
pub open spec fn same_slot(a: ResolvedView, b: ResolvedView) -> bool {
    a.key == b.key && a.valid == b.valid
}

/// Whether no write after the `i`th is for the same key and valid time.
pub open spec fn wins(writes: Seq<WriteView>, commit_micros: int, i: int) -> bool {
    &&& 0 <= i < writes.len()
    &&& forall|j: int|
        i < j < writes.len() ==> !same_slot(
            (#[trigger] writes[j]).resolved(commit_micros),
            writes[i].resolved(commit_micros),
        )
}

/// Whether `resolved` is what a commit at `commit_micros` makes of `writes`: for
/// each key and valid time that some write is for, the last such write, in the
/// order of keys and valid times.
pub open spec fn is_resolution(
    resolved: Seq<ResolvedView>,
    writes: Seq<WriteView>,
    commit_micros: int,
) -> bool {
    &&& slots_ascend(resolved)
    &&& forall|i: int| #[trigger]
        wins(writes, commit_micros, i) ==> resolved.contains(writes[i].resolved(commit_micros))
    &&& forall|k: int|
        0 <= k < resolved.len() ==> exists|i: int| #[trigger]
            wins(writes, commit_micros, i) && writes[i].resolved(commit_micros) == #[trigger] resolved[k]
}

/// The place of a key and valid time among resolved writes in order, and whether
/// it is taken.
fn slot_position(resolved: &Vec<ResolvedWrite>, key: &str, valid: i64) -> (r: (bool, usize))
    requires
        slots_ascend(resolved_view(resolved@)),
    ensures
        r.1 <= resolved@.len(),
        forall|i: int| 0 <= i < r.1 ==> slot_lt((#[trigger] resolved@[i])@.key, resolved@[i]@.valid, key@, valid as int),
        r.0 ==> r.1 < resolved@.len() && resolved@[r.1 as int]@.key == key@ && resolved@[r.1 as int]@.valid == valid,
        !r.0 ==> forall|i: int|
            r.1 <= i < resolved@.len() ==> slot_lt(key@, valid as int, (#[trigger] resolved@[i])@.key, resolved@[i]@.valid),
{
    let ghost view = resolved_view(resolved@);
    let mut low: usize = 0;
    let mut high: usize = resolved.len();
    while low < high
        invariant
            low <= high <= resolved@.len(),
            view == resolved_view(resolved@),
            slots_ascend(view),
            forall|i: int| 0 <= i < low ==> slot_lt((#[trigger] resolved@[i])@.key, resolved@[i]@.valid, key@, valid as int),
            forall|i: int|
                high <= i < resolved@.len() ==> slot_lt(key@, valid as int, (#[trigger] resolved@[i])@.key, resolved@[i]@.valid),
        decreases high - low,
    {
        let middle: usize = low + (high - low) / 2;
        let order = match order_of(resolved[middle].key.as_str(), key) {
            Order::Less => Order::Less,
            Order::Greater => Order::Greater,
            Order::Equal => {
                if resolved[middle].valid_from < valid {
                    Order::Less
                } else if resolved[middle].valid_from > valid {
                    Order::Greater
                } else {
                    Order::Equal
                }
            },
        };
        let ghost here = view[middle as int];
        assert(here == resolved@[middle as int]@);
        match order {
            Order::Equal => {
                assert forall|i: int| 0 <= i < middle implies slot_lt((#[trigger] resolved@[i])@.key, resolved@[i]@.valid, key@, valid as int) by {
                    assert(view[i] == resolved@[i]@);
                }
                return (true, middle);
            },
            Order::Less => {
                assert forall|i: int| 0 <= i <= middle implies slot_lt((#[trigger] resolved@[i])@.key, resolved@[i]@.valid, key@, valid as int) by {
                    assert(view[i] == resolved@[i]@);
                    if i < middle {
                        slot_lt_transitive(view[i].key, view[i].valid, here.key, here.valid, key@, valid as int);
                    }
                }
                low = middle + 1;
            },
            Order::Greater => {
                assert forall|i: int| middle <= i < resolved@.len() implies slot_lt(key@, valid as int, (#[trigger] resolved@[i])@.key, resolved@[i]@.valid) by {
                    assert(view[i] == resolved@[i]@);
                    if middle < i {
                        slot_lt_transitive(key@, valid as int, here.key, here.valid, view[i].key, view[i].valid);
                    }
                }
                high = middle;
            },
        }
    }
    (false, low)
}

/// What a commit at `committed_at` makes of writes: writes without a valid time
/// get that of the commit; of the writes for one key and valid time, in
/// microseconds, the last is kept; and what is kept is put in the order of keys
/// and valid times.
pub fn resolve_writes(writes: Vec<Write>, committed_at: Timestamp) -> (resolved: Vec<ResolvedWrite>)
    ensures
        is_resolution(
            resolved_view(resolved@),
            writes_view(writes@),
            truncated(committed_at@),
        ),
{
    let commit_micros = committed_at.as_microsecond();
    let ghost all = writes_view(writes@);
    let ghost micros = commit_micros as int;
    let mut writes = writes;
    let mut resolved: Vec<ResolvedWrite> = Vec::new();
    assert(all.skip(all.len() as int) =~= Seq::<WriteView>::empty());
    while writes.len() > 0
        invariant
            micros == commit_micros,
            writes@.len() <= all.len(),
            writes_view(writes@) == all.take(writes@.len() as int),
            is_resolution(
                resolved_view(resolved@),
                all.skip(writes@.len() as int),
                micros,
            ),
        decreases writes@.len(),
    {
        let ghost before = resolved_view(resolved@);
        let ghost rest = all.skip(writes@.len() as int);
        let ghost n = writes@.len() - 1;
        assert(writes_view(writes@)[n] == writes@[n]@);
        let write = writes.pop().unwrap();
        assert(write@ == all[n]);
        assert(writes_view(writes@) =~= all.take(n));
        let valid_from = match write.valid_from {
            ValidFrom::Commit => commit_micros,
            ValidFrom::At(time) => time.as_microsecond(),
        };
        let ghost given = write@;
        let (taken, at) = slot_position(&resolved, write.key.as_str(), valid_from);
        if !taken {
            resolved.insert(
                at,
                ResolvedWrite { key: write.key, valid_from, value: write.value },
            );
        }
        proof {
            let after = resolved_view(resolved@);
            let one = given.resolved(micros);
            assert(all.skip(n) =~= seq![given] + rest);
            if taken {
                assert(same_slot(before[at as int], one));
                resolution_without(before, rest, micros, given, at as int);
            } else {
                assert(after =~= before.insert(at as int, one));
                resolution_with(before, rest, micros, given, at as int);
            }
        }
    }
    assert(all.skip(0) =~= all);
    resolved
}

/// With one more write before the others, each of the others is kept as it was, and
/// the one more if none of the others is for its key and valid time.
proof fn wins_with_one_more(rest: Seq<WriteView>, micros: int, write: WriteView)
    ensures
        ({
            let more = seq![write] + rest;
            &&& forall|i: int| i >= 0 ==> #[trigger] wins(rest, micros, i) == wins(more, micros, i + 1)
            &&& forall|i: int| i > 0 ==> #[trigger] wins(more, micros, i) == wins(rest, micros, i - 1)
            &&& wins(more, micros, 0) <==> forall|j: int|
                0 <= j < rest.len() ==> !same_slot(
                    (#[trigger] rest[j]).resolved(micros),
                    write.resolved(micros),
                )
        }),
{
    let more = seq![write] + rest;
    assert forall|i: int| i >= 0 implies #[trigger] wins(rest, micros, i) == wins(more, micros, i + 1) by {
        if wins(rest, micros, i) {
            assert forall|j: int| i + 1 < j < more.len() implies !same_slot(
                (#[trigger] more[j]).resolved(micros),
                more[i + 1].resolved(micros),
            ) by {
                assert(more[j] == rest[j - 1]);
            }
        }
        if wins(more, micros, i + 1) {
            assert forall|j: int| i < j < rest.len() implies !same_slot(
                (#[trigger] rest[j]).resolved(micros),
                rest[i].resolved(micros),
            ) by {
                assert(rest[j] == more[j + 1]);
            }
        }
    }
    assert forall|i: int| i > 0 implies #[trigger] wins(more, micros, i) == wins(rest, micros, i - 1) by {
        assert(wins(rest, micros, i - 1) == wins(more, micros, (i - 1) + 1));
    }
    if wins(more, micros, 0) {
        assert forall|j: int| 0 <= j < rest.len() implies !same_slot(
            (#[trigger] rest[j]).resolved(micros),
            write.resolved(micros),
        ) by {
            assert(rest[j] == more[j + 1]);
        }
    }
    if forall|j: int|
        0 <= j < rest.len() ==> !same_slot(
            (#[trigger] rest[j]).resolved(micros),
            write.resolved(micros),
        ) {
        assert forall|j: int| 0 < j < more.len() implies !same_slot(
            (#[trigger] more[j]).resolved(micros),
            more[0].resolved(micros),
        ) by {
            assert(more[j] == rest[j - 1]);
        }
    }
}

/// A write is not kept if a later one is for the same key and valid time.
proof fn resolution_without(
    resolved: Seq<ResolvedView>,
    rest: Seq<WriteView>,
    micros: int,
    write: WriteView,
    at: int,
)
    requires
        is_resolution(resolved, rest, micros),
        0 <= at < resolved.len(),
        same_slot(resolved[at], write.resolved(micros)),
    ensures
        is_resolution(resolved, seq![write] + rest, micros),
{
    let more = seq![write] + rest;
    wins_with_one_more(rest, micros, write);
    let i = choose|i: int| #[trigger]
        wins(rest, micros, i) && rest[i].resolved(micros) == resolved[at];
    assert(same_slot(rest[i].resolved(micros), write.resolved(micros)));
    assert forall|i: int| #[trigger] wins(more, micros, i) implies resolved.contains(
        more[i].resolved(micros),
    ) by {
        assert(i > 0);
        assert(wins(rest, micros, i - 1));
        assert(more[i] == rest[i - 1]);
    }
    assert forall|k: int| 0 <= k < resolved.len() implies exists|i: int| #[trigger]
        wins(more, micros, i) && more[i].resolved(micros) == #[trigger] resolved[k] by {
        let i = choose|i: int| #[trigger]
            wins(rest, micros, i) && rest[i].resolved(micros) == resolved[k];
        assert(wins(more, micros, i + 1));
        assert(more[i + 1] == rest[i]);
    }
}

/// A write for a key and valid time that no later one is for is kept in its place.
proof fn resolution_with(
    before: Seq<ResolvedView>,
    rest: Seq<WriteView>,
    micros: int,
    write: WriteView,
    at: int,
)
    requires
        is_resolution(before, rest, micros),
        0 <= at <= before.len(),
        ({
            let one = write.resolved(micros);
            &&& forall|i: int|
                0 <= i < at ==> slot_lt((#[trigger] before[i]).key, before[i].valid, one.key, one.valid)
            &&& forall|i: int|
                at <= i < before.len() ==> slot_lt(one.key, one.valid, (#[trigger] before[i]).key, before[i].valid)
        }),
    ensures
        is_resolution(before.insert(at, write.resolved(micros)), seq![write] + rest, micros),
{
    let one = write.resolved(micros);
    let after = before.insert(at, one);
    let more = seq![write] + rest;
    wins_with_one_more(rest, micros, write);
    assert forall|j: int| 0 <= j < rest.len() implies !same_slot(
        (#[trigger] rest[j]).resolved(micros),
        one,
    ) by {
        if same_slot(rest[j].resolved(micros), one) {
            let last = last_for(rest, micros, j);
            assert(before.contains(rest[last].resolved(micros)));
            let k = choose|k: int| 0 <= k < before.len() && before[k] == rest[last].resolved(micros);
            slot_lt_trichotomy(before[k].key, before[k].valid, one.key, one.valid);
            slot_lt_trichotomy(one.key, one.valid, before[k].key, before[k].valid);
        }
    }
    assert(wins(more, micros, 0));
    assert forall|k: int| 0 <= k < before.len() implies after.contains(#[trigger] before[k]) by {
        assert(after[if k < at { k } else { k + 1 }] == before[k]);
    }
    assert forall|i: int| #[trigger] wins(more, micros, i) implies after.contains(
        more[i].resolved(micros),
    ) by {
        if i > 0 {
            assert(wins(rest, micros, i - 1));
            assert(more[i] == rest[i - 1]);
            let k = choose|k: int| 0 <= k < before.len() && before[k] == rest[i - 1].resolved(micros);
            assert(after.contains(before[k]));
        } else {
            assert(after[at] == one);
        }
    }
    assert forall|k: int| 0 <= k < after.len() implies exists|i: int| #[trigger]
        wins(more, micros, i) && more[i].resolved(micros) == #[trigger] after[k] by {
        if k == at {
            assert(more[0].resolved(micros) == after[k]);
        } else {
            let b = if k < at { k } else { k - 1 };
            assert(after[k] == before[b]);
            let i = choose|i: int| #[trigger]
                wins(rest, micros, i) && rest[i].resolved(micros) == before[b];
            assert(wins(more, micros, i + 1));
            assert(more[i + 1] == rest[i]);
        }
    }
    insertion_keeps_order(before, at, one);
}

/// A write in its place keeps the order.
proof fn insertion_keeps_order(before: Seq<ResolvedView>, at: int, one: ResolvedView)
    requires
        slots_ascend(before),
        0 <= at <= before.len(),
        forall|i: int|
            0 <= i < at ==> slot_lt((#[trigger] before[i]).key, before[i].valid, one.key, one.valid),
        forall|i: int|
            at <= i < before.len() ==> slot_lt(one.key, one.valid, (#[trigger] before[i]).key, before[i].valid),
    ensures
        slots_ascend(before.insert(at, one)),
{
    let after = before.insert(at, one);
    assert forall|i: int, j: int| 0 <= i < j < after.len() implies slot_lt(
        (#[trigger] after[i]).key,
        after[i].valid,
        (#[trigger] after[j]).key,
        after[j].valid,
    ) by {
        if i != at {
            assert(after[i] == before[if i < at { i } else { i - 1 }]);
        }
        if j != at {
            assert(after[j] == before[if j < at { j } else { j - 1 }]);
        }
    }
}

/// The last write for the key and valid time of the `i`th.
proof fn last_for(writes: Seq<WriteView>, micros: int, i: int) -> (last: int)
    requires
        0 <= i < writes.len(),
    ensures
        wins(writes, micros, last),
        same_slot(writes[last].resolved(micros), writes[i].resolved(micros)),
    decreases writes.len() - i,
{
    if wins(writes, micros, i) {
        i
    } else {
        let j = choose|j: int|
            i < j < writes.len() && same_slot(
                (#[trigger] writes[j]).resolved(micros),
                writes[i].resolved(micros),
            );
        last_for(writes, micros, j)
    }
}

/// Two lists in order with the same elements are equal.
proof fn same_elements_same_list(a: Seq<ResolvedView>, b: Seq<ResolvedView>)
    requires
        slots_ascend(a),
        slots_ascend(b),
        forall|write: ResolvedView| #[trigger] a.contains(write) <==> b.contains(write),
    ensures
        a == b,
    decreases a.len(),
{
    if a.len() == 0 {
        if b.len() > 0 {
            assert(b.contains(b[0]));
            assert(a.contains(b[0]));
        }
        assert(a =~= b);
    } else {
        let (x, y) = (a.last(), b.last());
        assert(a.contains(x));
        assert(b.contains(x));
        assert(b.contains(y));
        assert(a.contains(y));
        let i = choose|i: int| 0 <= i < a.len() && a[i] == y;
        let j = choose|j: int| 0 <= j < b.len() && b[j] == x;
        slot_lt_trichotomy(x.key, x.valid, y.key, y.valid);
        slot_lt_trichotomy(x.key, x.valid, x.key, x.valid);
        assert(x == y);
        let (c, d) = (a.drop_last(), b.drop_last());
        assert forall|write: ResolvedView| #[trigger] c.contains(write) <==> d.contains(write) by {
            if c.contains(write) {
                let k = choose|k: int| 0 <= k < c.len() && c[k] == write;
                assert(a[k] == write);
                assert(a.contains(write));
                assert(slot_lt(write.key, write.valid, x.key, x.valid));
                let m = choose|m: int| 0 <= m < b.len() && b[m] == write;
                assert(d[m] == write);
            }
            if d.contains(write) {
                let k = choose|k: int| 0 <= k < d.len() && d[k] == write;
                assert(b[k] == write);
                assert(b.contains(write));
                assert(a.contains(write));
                assert(slot_lt(write.key, write.valid, y.key, y.valid));
                let m = choose|m: int| 0 <= m < a.len() && a[m] == write;
                assert(c[m] == write);
            }
        }
        same_elements_same_list(c, d);
        assert(a =~= c.push(x));
        assert(b =~= d.push(y));
    }
}

/// What a commit makes of writes is determined.
pub proof fn resolution_is_unique(
    a: Seq<ResolvedView>,
    b: Seq<ResolvedView>,
    writes: Seq<WriteView>,
    commit_micros: int,
)
    requires
        is_resolution(a, writes, commit_micros),
        is_resolution(b, writes, commit_micros),
    ensures
        a == b,
{
    assert forall|write: ResolvedView| #[trigger] a.contains(write) <==> b.contains(write) by {
        if a.contains(write) {
            let k = choose|k: int| 0 <= k < a.len() && a[k] == write;
            assert(a[k] == write);
        }
        if b.contains(write) {
            let k = choose|k: int| 0 <= k < b.len() && b[k] == write;
            assert(b[k] == write);
        }
    }
    same_elements_same_list(a, b);
}

/// For each write there is one kept for its key and valid time: itself, or a later
/// one.
pub proof fn every_place_is_kept(
    resolved: Seq<ResolvedView>,
    writes: Seq<WriteView>,
    commit_micros: int,
    i: int,
)
    requires
        is_resolution(resolved, writes, commit_micros),
        0 <= i < writes.len(),
    ensures
        exists|k: int|
            0 <= k < resolved.len() && same_slot(
                #[trigger] resolved[k],
                writes[i].resolved(commit_micros),
            ),
{
    let last = last_for(writes, commit_micros, i);
    assert(resolved.contains(writes[last].resolved(commit_micros)));
    let k = choose|k: int|
        0 <= k < resolved.len() && resolved[k] == writes[last].resolved(commit_micros);
    assert(same_slot(resolved[k], writes[i].resolved(commit_micros)));
}

/// No more is kept than was given.
pub proof fn no_more_are_kept(
    resolved: Seq<ResolvedView>,
    writes: Seq<WriteView>,
    commit_micros: int,
)
    requires
        is_resolution(resolved, writes, commit_micros),
    ensures
        resolved.len() <= writes.len(),
{
    let from = |k: int| choose|i: int| #[trigger]
        wins(writes, commit_micros, i) && writes[i].resolved(commit_micros) == resolved[k];
    let indices = Seq::new(resolved.len(), from);
    assert forall|k: int| 0 <= k < resolved.len() implies 0 <= #[trigger] indices[k] < writes.len()
        && writes[indices[k]].resolved(commit_micros) == resolved[k] by {
    }
    assert forall|k: int, m: int| 0 <= k < m < indices.len() implies #[trigger] indices[k] != #[trigger] indices[m] by {
        slot_lt_trichotomy(resolved[k].key, resolved[k].valid, resolved[m].key, resolved[m].valid);
        assert(slot_lt(resolved[k].key, resolved[k].valid, resolved[m].key, resolved[m].valid));
    }
    indices.unique_seq_to_set();
    let all = vstd::set_lib::set_int_range(0, writes.len() as int);
    vstd::set_lib::lemma_int_range(0, writes.len() as int);
    assert(indices.to_set().subset_of(all));
    vstd::set_lib::lemma_len_subset(indices.to_set(), all);
}

/// A write that sets a key to an integer holds just that integer.
pub proof fn a_write_of_an_integer<K: Into<String>>(
    key: K,
    number: i64,
    time: Timestamp,
    now: Write,
    later: Write,
)
    requires
        call_ensures(Write::set::<K, i64>, (key, number), now),
        call_ensures(Write::set_at::<K, i64>, (key, number, time), later),
    ensures
        now@.value == Some(ValueView::Int(number)),
        later@.value == Some(ValueView::Int(number)),
{
}

/// A write that sets a key to a boolean holds just that boolean.
pub proof fn a_write_of_a_boolean<K: Into<String>>(
    key: K,
    flag: bool,
    time: Timestamp,
    now: Write,
    later: Write,
)
    requires
        call_ensures(Write::set::<K, bool>, (key, flag), now),
        call_ensures(Write::set_at::<K, bool>, (key, flag, time), later),
    ensures
        now@.value == Some(ValueView::Bool(flag)),
        later@.value == Some(ValueView::Bool(flag)),
{
}

/// A write that sets a key to a text holds just that text.
pub proof fn a_write_of_a_text<K: Into<String>>(
    key: K,
    text: &str,
    string: String,
    time: Timestamp,
    now: (Write, Write),
    later: (Write, Write),
)
    requires
        call_ensures(Write::set::<K, &str>, (key, text), now.0),
        call_ensures(Write::set::<K, String>, (key, string), now.1),
        call_ensures(Write::set_at::<K, &str>, (key, text, time), later.0),
        call_ensures(Write::set_at::<K, String>, (key, string, time), later.1),
    ensures
        now.0@.value == Some(ValueView::Str(text@)),
        now.1@.value == Some(ValueView::Str(string@)),
        later.0@.value == Some(ValueView::Str(text@)),
        later.1@.value == Some(ValueView::Str(string@)),
{
}

/// A write that sets a key to a value holds just that value; so for each float.
pub proof fn a_write_of_a_value<K: Into<String>>(
    key: K,
    value: Value,
    time: Timestamp,
    now: Write,
    later: Write,
)
    requires
        call_ensures(Write::set::<K, Value>, (key, value), now),
        call_ensures(Write::set_at::<K, Value>, (key, value, time), later),
    ensures
        now@.value == Some(value@),
        later@.value == Some(value@),
        value matches Value::Float(bits) ==> now@.value == Some(ValueView::Float(bits)),
{
}

/// A write is for the key that it was given, a deletion holds no value, and a write is
/// valid from the time that it was given, to the microsecond, or from its commit.
pub proof fn a_write_is_for_its_key_and_time<V: Into<Value>>(
    key: &str,
    string: String,
    value: V,
    time: Timestamp,
    sets: (Write, Write, Write, Write),
    deletes: (Write, Write, Write, Write),
)
    requires
        call_ensures(Write::set::<&str, V>, (key, value), sets.0),
        call_ensures(Write::set::<String, V>, (string, value), sets.1),
        call_ensures(Write::set_at::<&str, V>, (key, value, time), sets.2),
        call_ensures(Write::set_at::<String, V>, (string, value, time), sets.3),
        call_ensures(Write::delete::<&str>, (key,), deletes.0),
        call_ensures(Write::delete::<String>, (string,), deletes.1),
        call_ensures(Write::delete_at::<&str>, (key, time), deletes.2),
        call_ensures(Write::delete_at::<String>, (string, time), deletes.3),
    ensures
        sets.0@.key == key@ && sets.2@.key == key@ && deletes.0@.key == key@ && deletes.2@.key
            == key@,
        sets.1@.key == string@ && sets.3@.key == string@ && deletes.1@.key == string@
            && deletes.3@.key == string@,
        sets.0@.value is Some && sets.1@.value is Some && sets.2@.value is Some && sets.3@.value is Some,
        deletes.0@.value is None && deletes.1@.value is None && deletes.2@.value is None
            && deletes.3@.value is None,
        sets.0@.valid is None && sets.1@.valid is None && deletes.0@.valid is None
            && deletes.1@.valid is None,
        sets.2@.valid == Some(truncated(time@)) && sets.3@.valid == Some(truncated(time@)),
        deletes.2@.valid == Some(truncated(time@)) && deletes.3@.valid == Some(truncated(time@)),
{
}

/// From when a write is valid in a commit at `commit_micros`.
pub open spec fn valid_time(write: WriteView, commit_micros: int) -> int {
    match write.valid {
        Some(valid) => valid,
        None => commit_micros,
    }
}

/// What is kept is a write that was given, with no later one for its key and valid time.
pub proof fn what_is_kept_was_last(
    resolved: Seq<ResolvedView>,
    writes: Seq<WriteView>,
    commit_micros: int,
    k: int,
) -> (i: int)
    requires
        is_resolution(resolved, writes, commit_micros),
        0 <= k < resolved.len(),
    ensures
        0 <= i < writes.len(),
        writes[i].key == resolved[k].key,
        valid_time(writes[i], commit_micros) == resolved[k].valid,
        writes[i].value == resolved[k].value,
        forall|j: int|
            i < j < writes.len() ==> !((#[trigger] writes[j]).key == resolved[k].key && valid_time(
                writes[j],
                commit_micros,
            ) == resolved[k].valid),
{
    let i = choose|i: int| #[trigger]
        wins(writes, commit_micros, i) && writes[i].resolved(commit_micros) == resolved[k];
    assert forall|j: int| i < j < writes.len() implies !((#[trigger] writes[j]).key
        == resolved[k].key && valid_time(writes[j], commit_micros) == resolved[k].valid) by {
        assert(!same_slot(writes[j].resolved(commit_micros), writes[i].resolved(commit_micros)));
    }
    i
}

/// The last write for a key and valid time is kept, with its value.
pub proof fn the_last_write_is_kept(
    resolved: Seq<ResolvedView>,
    writes: Seq<WriteView>,
    commit_micros: int,
    i: int,
) -> (k: int)
    requires
        is_resolution(resolved, writes, commit_micros),
        0 <= i < writes.len(),
        forall|j: int|
            i < j < writes.len() ==> !((#[trigger] writes[j]).key == writes[i].key && valid_time(
                writes[j],
                commit_micros,
            ) == valid_time(writes[i], commit_micros)),
    ensures
        0 <= k < resolved.len(),
        resolved[k].key == writes[i].key,
        resolved[k].valid == valid_time(writes[i], commit_micros),
        resolved[k].value == writes[i].value,
{
    assert(wins(writes, commit_micros, i)) by {
        assert forall|j: int| i < j < writes.len() implies !same_slot(
            (#[trigger] writes[j]).resolved(commit_micros),
            writes[i].resolved(commit_micros),
        ) by {
            assert(writes[j].key != writes[i].key || valid_time(writes[j], commit_micros)
                != valid_time(writes[i], commit_micros));
        }
    }
    assert(resolved.contains(writes[i].resolved(commit_micros)));
    choose|k: int| 0 <= k < resolved.len() && resolved[k] == writes[i].resolved(commit_micros)
}

/// What is kept is in the order of keys and valid times, with none for the same twice.
pub proof fn what_is_kept_is_in_order(
    resolved: Seq<ResolvedView>,
    writes: Seq<WriteView>,
    commit_micros: int,
    a: int,
    b: int,
)
    requires
        is_resolution(resolved, writes, commit_micros),
        0 <= a < b < resolved.len(),
    ensures
        key_lt(resolved[a].key, resolved[b].key) || (resolved[a].key == resolved[b].key
            && resolved[a].valid < resolved[b].valid),
{
    assert(slot_lt(resolved[a].key, resolved[a].valid, resolved[b].key, resolved[b].valid));
}

/// The models of writes are those of each, in order.
pub proof fn writes_are_modeled_one_by_one(
    writes: Seq<Write>,
    resolved: Seq<ResolvedWrite>,
)
    ensures
        writes_view(writes).len() == writes.len(),
        forall|i: int| 0 <= i < writes.len() ==> #[trigger] writes_view(writes)[i] == writes[i]@,
        resolved_view(resolved).len() == resolved.len(),
        forall|i: int|
            0 <= i < resolved.len() ==> {
                &&& (#[trigger] resolved_view(resolved)[i]).key == resolved[i].key@
                &&& resolved_view(resolved)[i].valid == resolved[i].valid_from
                &&& resolved_view(resolved)[i].value is Some <==> resolved[i].value is Some
                &&& resolved[i].value is Some ==> resolved_view(resolved)[i].value
                    == Some(resolved[i].value->0@)
            },
{
}

} // verus!

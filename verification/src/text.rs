//! The order of keys.
//!
//! Keys are ordered by the bytes of their UTF-8 encoding, which is the order
//! of `String` and of SQLite's default collation.

use vstd::prelude::*;
use vstd::utf8::*;

verus! {

/// How one key stands to another.
#[derive(Debug, Clone, Copy, PartialEq, Eq, Structural)]
pub enum Order {
    Less,
    Equal,
    Greater,
}

/// Whether `a` and `b` agree on the first `n` bytes, and `a` then ends or goes
/// on with a smaller byte.
pub open spec fn differs_below(a: Seq<u8>, b: Seq<u8>, n: int) -> bool {
    &&& 0 <= n <= a.len()
    &&& n < b.len()
    &&& forall|i: int| 0 <= i < n ==> #[trigger] a[i] == b[i]
    &&& n < a.len() ==> a[n] < b[n]
}

/// Lexicographic order of byte strings.
pub open spec fn bytes_lt(a: Seq<u8>, b: Seq<u8>) -> bool {
    exists|n: int| differs_below(a, b, n)
}

/// The order of keys: that of their UTF-8 bytes.
#[verifier::opaque]
pub open spec fn key_lt(a: Seq<char>, b: Seq<char>) -> bool {
    bytes_lt(encode_utf8(a), encode_utf8(b))
}

/// A key is not below itself.
pub proof fn key_lt_irreflexive(a: Seq<char>)
    ensures
        !key_lt(a, a),
{
    reveal(key_lt);
}

/// The order of keys is transitive.
pub proof fn key_lt_transitive(a: Seq<char>, b: Seq<char>, c: Seq<char>)
    requires
        key_lt(a, b),
        key_lt(b, c),
    ensures
        key_lt(a, c),
{
    reveal(key_lt);
    let (x, y, z) = (encode_utf8(a), encode_utf8(b), encode_utf8(c));
    let m = choose|n: int| differs_below(x, y, n);
    let n = choose|n: int| differs_below(y, z, n);
    let least = if m <= n { m } else { n };
    assert forall|i: int| 0 <= i < least implies #[trigger] x[i] == z[i] by {
        assert(x[i] == y[i]);
        assert(y[i] == z[i]);
    }
    assert(differs_below(x, z, least));
}

/// Two keys are equal, or one of them is below the other.
pub proof fn key_lt_total(a: Seq<char>, b: Seq<char>)
    ensures
        a == b || key_lt(a, b) || key_lt(b, a),
{
    reveal(key_lt);
    let (x, y) = (encode_utf8(a), encode_utf8(b));
    bytes_lt_total(x, y, 0);
    if x == y {
        encode_utf8_decode_utf8(a);
        encode_utf8_decode_utf8(b);
    }
}

proof fn bytes_lt_total(a: Seq<u8>, b: Seq<u8>, n: int)
    requires
        0 <= n <= a.len(),
        n <= b.len(),
        forall|i: int| 0 <= i < n ==> #[trigger] a[i] == b[i],
    ensures
        a == b || bytes_lt(a, b) || bytes_lt(b, a),
    decreases a.len() - n,
{
    if n < a.len() && n < b.len() && a[n] == b[n] {
        bytes_lt_total(a, b, n + 1);
    } else if n == a.len() && n == b.len() {
        assert(a =~= b);
    } else if n < b.len() && (n == a.len() || a[n] < b[n]) {
        assert(differs_below(a, b, n));
    } else {
        assert(differs_below(b, a, n));
    }
}

/// A key that is below another is neither equal to it nor above it.
pub proof fn key_lt_asymmetric(a: Seq<char>, b: Seq<char>)
    requires
        key_lt(a, b),
    ensures
        a != b,
        !key_lt(b, a),
{
    key_lt_irreflexive(a);
    if key_lt(b, a) {
        key_lt_transitive(a, b, a);
    }
}

/// Compares two keys.
pub fn order_of(a: &str, b: &str) -> (order: Order)
    ensures
        order is Less <==> key_lt(a@, b@),
        order is Equal <==> a@ == b@,
        order is Greater <==> key_lt(b@, a@),
{
    let x = a.as_bytes();
    let y = b.as_bytes();
    let mut n: usize = 0;
    while n < x.len() && n < y.len() && x[n] == y[n]
        invariant
            n <= x@.len(),
            n <= y@.len(),
            forall|i: int| 0 <= i < n ==> #[trigger] x@[i] == y@[i],
        decreases x@.len() - n,
    {
        n = n + 1;
    }
    proof {
        reveal(key_lt);
        key_lt_irreflexive(a@);
        if n == x@.len() && n == y@.len() {
            assert(x@ =~= y@);
            encode_utf8_decode_utf8(a@);
            encode_utf8_decode_utf8(b@);
        } else if n < y@.len() && (n == x@.len() || x@[n as int] < y@[n as int]) {
            assert(differs_below(x@, y@, n as int));
            key_lt_asymmetric(a@, b@);
        } else {
            assert(differs_below(y@, x@, n as int));
            key_lt_asymmetric(b@, a@);
        }
    }
    if n == x.len() {
        if n == y.len() {
            Order::Equal
        } else {
            Order::Less
        }
    } else if n == y.len() {
        Order::Greater
    } else if x[n] < y[n] {
        Order::Less
    } else {
        Order::Greater
    }
}

/// Whether two keys are equal.
pub fn same_key(a: &str, b: &str) -> (same: bool)
    ensures
        same == (a@ == b@),
{
    match order_of(a, b) {
        Order::Equal => true,
        _ => false,
    }
}

/// A key whose bytes another key goes on from is below it.
pub proof fn a_beginning_is_below(a: Seq<char>, b: Seq<char>)
    requires
        encode_utf8(a).len() < encode_utf8(b).len(),
        encode_utf8(b).take(encode_utf8(a).len() as int) == encode_utf8(a),
    ensures
        key_lt(a, b),
{
    reveal(key_lt);
    let (x, y) = (encode_utf8(a), encode_utf8(b));
    let n = x.len() as int;
    assert forall|i: int| 0 <= i < n implies #[trigger] x[i] == y[i] by {
        assert(y.take(n)[i] == y[i]);
    }
    assert(differs_below(x, y, n));
}

/// Of two keys, the first byte in which they differ tells which is below.
pub proof fn the_first_difference_tells(a: Seq<char>, b: Seq<char>, n: int)
    requires
        0 <= n < encode_utf8(a).len(),
        n < encode_utf8(b).len(),
        encode_utf8(a).take(n) == encode_utf8(b).take(n),
        encode_utf8(a)[n] < encode_utf8(b)[n],
    ensures
        key_lt(a, b),
        !key_lt(b, a),
{
    reveal(key_lt);
    let (x, y) = (encode_utf8(a), encode_utf8(b));
    assert forall|i: int| 0 <= i < n implies #[trigger] x[i] == y[i] by {
        assert(x.take(n)[i] == y.take(n)[i]);
    }
    assert(differs_below(x, y, n));
    key_lt_asymmetric(a, b);
}

/// Comparing two keys tells which is below; none is just if they are the same.
pub proof fn keys_compare(a: &str, b: &str, order: Order, same: bool)
    requires
        call_ensures(order_of, (a, b), order),
        call_ensures(same_key, (a, b), same),
    ensures
        order is Less <==> key_lt(a@, b@),
        order is Greater <==> key_lt(b@, a@),
        order is Equal <==> a@ == b@,
        same <==> a@ == b@,
{
}

} // verus!

//! The lexicographic order on strings, by code point.
//!
//! Keys and candidates of the index are kept in this order.

use vstd::prelude::*;
use vstd::std_specs::iter::IteratorSpec;

verus! {

broadcast use vstd::string::group_string_axioms;

/// `a` and `b` hold the same characters at every position below `i`.
pub open spec fn agree_below(a: Seq<char>, b: Seq<char>, i: int) -> bool {
    forall|j: int| 0 <= j < i ==> a[j] == b[j]
}

/// `a` and `b` agree below `i`, and at `i` either `a` ends while `b`
/// goes on, or `a` holds the smaller character.
pub open spec fn decided_at(a: Seq<char>, b: Seq<char>, i: int) -> bool {
    &&& 0 <= i <= a.len()
    &&& i <= b.len()
    &&& agree_below(a, b, i)
    &&& if i == a.len() {
        i < b.len()
    } else {
        i < b.len() && a[i] < b[i]
    }
}

/// `a` comes strictly before `b`.
pub open spec fn precedes(a: Seq<char>, b: Seq<char>) -> bool {
    exists|i: int| decided_at(a, b, i)
}

/// No string comes before itself.
pub proof fn lemma_precedes_irreflexive(a: Seq<char>)
    ensures
        !precedes(a, a),
{
}

/// The order is transitive.
pub proof fn lemma_precedes_transitive(a: Seq<char>, b: Seq<char>, c: Seq<char>)
    requires
        precedes(a, b),
        precedes(b, c),
    ensures
        precedes(a, c),
{
    let i = choose|i: int| decided_at(a, b, i);
    let j = choose|j: int| decided_at(b, c, j);
    let k = if i <= j { i } else { j };
    assert(decided_at(a, c, k));
}

/// Of two strings at most one comes before the other.
pub proof fn lemma_precedes_asymmetric(a: Seq<char>, b: Seq<char>)
    requires
        precedes(a, b),
    ensures
        !precedes(b, a),
{
    if precedes(b, a) {
        lemma_precedes_transitive(a, b, a);
        lemma_precedes_irreflexive(a);
    }
}

proof fn lemma_total_from(a: Seq<char>, b: Seq<char>, i: int)
    requires
        0 <= i <= a.len(),
        i <= b.len(),
        agree_below(a, b, i),
    ensures
        precedes(a, b) || a == b || precedes(b, a),
    decreases a.len() - i,
{
    if i == a.len() && i == b.len() {
        assert(a =~= b);
    } else if i == a.len() {
        assert(decided_at(a, b, i));
    } else if i == b.len() {
        assert(decided_at(b, a, i));
    } else if a[i] == b[i] {
        lemma_total_from(a, b, i + 1);
    } else if a[i] < b[i] {
        assert(decided_at(a, b, i));
    } else {
        assert(decided_at(b, a, i));
    }
}

/// The order is total: two different strings are ordered one way or the other.
pub proof fn lemma_precedes_total(a: Seq<char>, b: Seq<char>)
    ensures
        precedes(a, b) || a == b || precedes(b, a),
{
    lemma_total_from(a, b, 0);
}

/// How one string stands to another.
#[derive(Clone, Copy, Debug, PartialEq, Eq)]
pub enum Order {
    Less,
    Equal,
    Greater,
}

/// What `compare` returns on `a` and `b`.
pub open spec fn order_of(a: Seq<char>, b: Seq<char>) -> Order {
    if precedes(a, b) {
        Order::Less
    } else if a == b {
        Order::Equal
    } else {
        Order::Greater
    }
}

/// `order_of` says `Greater` only where `b` comes before `a`.
pub proof fn lemma_order_of(a: Seq<char>, b: Seq<char>)
    ensures
        order_of(a, b) == Order::Less <==> precedes(a, b),
        order_of(a, b) == Order::Equal <==> a == b,
        order_of(a, b) == Order::Greater <==> precedes(b, a),
{
    lemma_precedes_total(a, b);
    lemma_precedes_irreflexive(a);
    if precedes(a, b) {
        lemma_precedes_asymmetric(a, b);
    }
}

/// Compares two strings character by character, in one pass over both.
pub fn compare(a: &str, b: &str) -> (r: Order)
    ensures
        r == order_of(a@, b@),
{
    let mut xs = a.chars();
    let mut ys = b.chars();
    let ghost mut i: int = 0;
    proof {
        lemma_order_of(a@, b@);
    }
    loop
        invariant
            0 <= i <= a@.len(),
            i <= b@.len(),
            agree_below(a@, b@, i),
            xs.obeys_prophetic_iter_laws(),
            ys.obeys_prophetic_iter_laws(),
            xs.remaining() == a@.skip(i),
            ys.remaining() == b@.skip(i),
            order_of(a@, b@) == Order::Less <==> precedes(a@, b@),
            order_of(a@, b@) == Order::Equal <==> a@ == b@,
            order_of(a@, b@) == Order::Greater <==> precedes(b@, a@),
        decreases a@.len() - i,
    {
        let x = xs.next();
        let y = ys.next();
        match (x, y) {
            (None, None) => {
                assert(a@ =~= b@);
                return Order::Equal;
            },
            (None, Some(_)) => {
                assert(decided_at(a@, b@, i));
                return Order::Less;
            },
            (Some(_), None) => {
                assert(decided_at(b@, a@, i));
                return Order::Greater;
            },
            (Some(p), Some(q)) => {
                assert(p == a@[i] && q == b@[i]);
                if p < q {
                    assert(decided_at(a@, b@, i));
                    return Order::Less;
                }
                if q < p {
                    assert(decided_at(b@, a@, i));
                    return Order::Greater;
                }
                proof {
                    assert(a@.skip(i).drop_first() =~= a@.skip(i + 1));
                    assert(b@.skip(i).drop_first() =~= b@.skip(i + 1));
                    i = i + 1;
                }
            },
        }
    }
}

} // verus!

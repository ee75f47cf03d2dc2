//! A map from strings to values, kept as a vector in key order.
//!
//! Nothing occurs twice among the keys, and they stand in increasing
//! order, so what the map holds fixes the order in which it is listed.

use vstd::prelude::*;
use crate::order::{compare, lemma_precedes_irreflexive, lemma_precedes_transitive, lemma_precedes_asymmetric, precedes, Order};

verus! {

/// Each key comes strictly before every later one.
pub open spec fn increasing(keys: Seq<Seq<char>>) -> bool {
    forall|i: int, j: int| 0 <= i < j < keys.len() ==> precedes(#[trigger] keys[i], #[trigger] keys[j])
}

/// `i` is the place of `key` among `keys`: what stands before it comes
/// before `key`, and `key` comes before what stands from `i` on.
pub open spec fn slot(keys: Seq<Seq<char>>, key: Seq<char>, i: int) -> bool {
    &&& 0 <= i <= keys.len()
    &&& forall|j: int| 0 <= j < i ==> precedes(#[trigger] keys[j], key)
    &&& forall|j: int| i <= j < keys.len() ==> precedes(key, #[trigger] keys[j])
}

/// `keys` lists exactly the members of `dom`, in increasing order.
pub open spec fn lists(keys: Seq<Seq<char>>, dom: Set<Seq<char>>) -> bool {
    &&& increasing(keys)
    &&& forall|k: Seq<char>| keys.contains(k) <==> dom.contains(k)
}

/// In an increasing sequence no key occurs twice.
pub proof fn lemma_increasing_distinct(keys: Seq<Seq<char>>)
    requires
        increasing(keys),
    ensures
        keys.no_duplicates(),
{
    assert forall|i: int, j: int| 0 <= i < keys.len() && 0 <= j < keys.len() && i != j implies keys[i]
        != keys[j] by {
        lemma_precedes_irreflexive(keys[i]);
        if i < j {
            assert(precedes(keys[i], keys[j]));
        } else {
            assert(precedes(keys[j], keys[i]));
        }
    }
}

/// A key that has a slot among `keys` is none of them.
pub proof fn lemma_slot_absent(keys: Seq<Seq<char>>, key: Seq<char>, i: int)
    requires
        slot(keys, key, i),
    ensures
        !keys.contains(key),
{
    lemma_precedes_irreflexive(key);
    if keys.contains(key) {
        let j = choose|j: int| 0 <= j < keys.len() && keys[j] == key;
        if j < i {
            assert(precedes(keys[j], key));
        } else {
            assert(precedes(key, keys[j]));
        }
    }
}

/// Putting a key into its slot keeps the sequence increasing.
pub proof fn lemma_insert_increasing(keys: Seq<Seq<char>>, key: Seq<char>, i: int)
    requires
        increasing(keys),
        slot(keys, key, i),
    ensures
        increasing(keys.insert(i, key)),
{
    let after = keys.insert(i, key);
    assert forall|a: int, b: int| 0 <= a < b < after.len() implies precedes(
        #[trigger] after[a],
        #[trigger] after[b],
    ) by {
        if a < i && b > i {
            assert(after[a] == keys[a]);
            assert(after[b] == keys[b - 1]);
            assert(precedes(keys[a], keys[b - 1]));
        } else if a < i && b < i {
            assert(precedes(keys[a], keys[b]));
        } else if a < i && b == i {
            assert(precedes(keys[a], key));
        } else if a == i {
            assert(after[b] == keys[b - 1]);
            assert(precedes(key, keys[b - 1]));
        } else {
            assert(after[a] == keys[a - 1]);
            assert(after[b] == keys[b - 1]);
            assert(precedes(keys[a - 1], keys[b - 1]));
        }
    }
}

/// Two increasing sequences of the same keys are the same sequence.
pub proof fn lemma_lists_unique(a: Seq<Seq<char>>, b: Seq<Seq<char>>, dom: Set<Seq<char>>)
    requires
        lists(a, dom),
        lists(b, dom),
    ensures
        a == b,
    decreases a.len(),
{
    lemma_increasing_distinct(a);
    lemma_increasing_distinct(b);
    if a.len() == 0 {
        if b.len() > 0 {
            assert(b.contains(b[0]));
            assert(a.contains(b[0]));
        }
        assert(a =~= b);
    } else if b.len() == 0 {
        assert(a.contains(a[0]));
        assert(b.contains(a[0]));
    } else {
        // The least key heads both sequences.
        assert(a.contains(a[0]));
        assert(b.contains(a[0]));
        assert(b.contains(b[0]));
        assert(a.contains(b[0]));
        let j = choose|j: int| 0 <= j < b.len() && b[j] == a[0];
        let k = choose|k: int| 0 <= k < a.len() && a[k] == b[0];
        if j > 0 {
            assert(precedes(b[0], b[j]));
            if k > 0 {
                assert(precedes(a[0], a[k]));
                lemma_precedes_asymmetric(a[0], b[0]);
            }
        }
        assert(a[0] == b[0]);
        let ra = a.drop_first();
        let rb = b.drop_first();
        let rest = dom.remove(a[0]);
        assert(lists(ra, rest)) by {
            assert forall|p: int, q: int| 0 <= p < q < ra.len() implies precedes(
                #[trigger] ra[p],
                #[trigger] ra[q],
            ) by {
                assert(precedes(a[p + 1], a[q + 1]));
            }
            assert forall|x: Seq<char>| ra.contains(x) <==> rest.contains(x) by {
                if ra.contains(x) {
                    let p = choose|p: int| 0 <= p < ra.len() && ra[p] == x;
                    assert(a[p + 1] == x);
                    assert(a.contains(x));
                }
                if rest.contains(x) {
                    assert(a.contains(x));
                    let p = choose|p: int| 0 <= p < a.len() && a[p] == x;
                    assert(ra[p - 1] == x);
                }
            }
        }
        assert(lists(rb, rest)) by {
            assert forall|p: int, q: int| 0 <= p < q < rb.len() implies precedes(
                #[trigger] rb[p],
                #[trigger] rb[q],
            ) by {
                assert(precedes(b[p + 1], b[q + 1]));
            }
            assert forall|x: Seq<char>| rb.contains(x) <==> rest.contains(x) by {
                if rb.contains(x) {
                    let p = choose|p: int| 0 <= p < rb.len() && rb[p] == x;
                    assert(b[p + 1] == x);
                    assert(b.contains(x));
                }
                if rest.contains(x) {
                    assert(b.contains(x));
                    let p = choose|p: int| 0 <= p < b.len() && b[p] == x;
                    assert(rb[p - 1] == x);
                }
            }
        }
        lemma_lists_unique(ra, rb, rest);
        assert(a =~= seq![a[0]] + ra);
        assert(b =~= seq![b[0]] + rb);
    }
}

/// A map from strings to values, held in key order.
#[derive(Debug)]
pub(crate) struct SortedMap<V> {
    keys: Vec<String>,
    values: Vec<V>,
}

impl<V: View> View for SortedMap<V> {
    type V = Map<Seq<char>, V::V>;

    /// Each key with the view of its value.
    open spec fn view(&self) -> Map<Seq<char>, V::V> {
        Map::new(
            |k: Seq<char>| self.keys().contains(k),
            |k: Seq<char>| self.values()[self.keys().index_of(k)]@,
        )
    }
}

impl<V: View> SortedMap<V> {
    /// The keys, in the order in which they are held.
    pub closed spec fn keys(&self) -> Seq<Seq<char>> {
        Seq::new(self.keys@.len(), |i: int| self.keys@[i]@)
    }

    /// The values, each at the place of its key.
    pub closed spec fn values(&self) -> Seq<V> {
        self.values@
    }

    /// Every key has its value, and the keys increase.
    pub open spec fn wf(&self) -> bool {
        &&& self.keys().len() == self.values().len()
        &&& increasing(self.keys())
    }

    /// The key at `i` maps to the value at `i`.
    pub proof fn lemma_entry(&self, i: int)
        requires
            self.wf(),
            0 <= i < self.keys().len(),
        ensures
            self@.contains_key(self.keys()[i]),
            self@[self.keys()[i]] == self.values()[i]@,
            self.keys().index_of(self.keys()[i]) == i,
    {
        lemma_increasing_distinct(self.keys());
        assert(self.keys().contains(self.keys()[i]));
    }

    /// The keys list the domain of the view, which is finite.
    pub proof fn lemma_domain(&self)
        requires
            self.wf(),
        ensures
            lists(self.keys(), self@.dom()),
            self@.dom().finite(),
            self@.dom().len() == self.keys().len(),
    {
        lemma_increasing_distinct(self.keys());
        assert(self@.dom() =~= self.keys().to_set());
        self.keys().unique_seq_to_set();
        vstd::seq_lib::seq_to_set_is_finite(self.keys());
    }

    /// A map that holds nothing.
    pub fn new() -> (r: Self)
        ensures
            r.wf(),
            r.keys() == Seq::<Seq<char>>::empty(),
            r.values() == Seq::<V>::empty(),
            r@ == Map::<Seq<char>, V::V>::empty(),
    {
        let r = SortedMap { keys: Vec::new(), values: Vec::new() };
        assert(r.keys() =~= Seq::<Seq<char>>::empty());
        assert(r@ =~= Map::<Seq<char>, V::V>::empty());
        r
    }

    /// How many keys the map holds.
    pub fn len(&self) -> (r: usize)
        requires
            self.wf(),
        ensures
            r == self.keys().len(),
            r == self@.dom().len(),
    {
        proof {
            self.lemma_domain();
        }
        self.keys.len()
    }

    /// The key at place `i`.
    pub fn key(&self, i: usize) -> (r: &String)
        requires
            self.wf(),
            i < self.keys().len(),
        ensures
            r@ == self.keys()[i as int],
    {
        &self.keys[i]
    }

    /// The value at place `i`.
    pub fn value(&self, i: usize) -> (r: &V)
        requires
            self.wf(),
            i < self.keys().len(),
        ensures
            *r == self.values()[i as int],
            r@ == self@[self.keys()[i as int]],
    {
        proof {
            self.lemma_entry(i as int);
        }
        &self.values[i]
    }

    /// The value at place `i`, to be changed where it stands.
    pub fn value_mut(&mut self, i: usize) -> (r: &mut V)
        requires
            old(self).wf(),
            i < old(self).keys().len(),
        ensures
            *r == old(self).values()[i as int],
            final(self).keys() == old(self).keys(),
            final(self).values() == old(self).values().update(i as int, *final(r)),
    {
        &mut self.values[i]
    }

    /// Looks `key` up by bisection: its place where the map holds it,
    /// else the slot at which it would be put.
    pub fn find(&self, key: &str) -> (r: Result<usize, usize>)
        requires
            self.wf(),
        ensures
            match r {
                Ok(i) => i < self.keys().len() && self.keys()[i as int] == key@
                    && self@.contains_key(key@),
                Err(i) => slot(self.keys(), key@, i as int) && !self@.contains_key(key@),
            },
    {
        let mut lo: usize = 0;
        let mut hi: usize = self.keys.len();
        while lo < hi
            invariant
                self.wf(),
                lo <= hi <= self.keys().len(),
                self.keys().len() == self.keys@.len(),
                forall|j: int| 0 <= j < lo ==> precedes(#[trigger] self.keys()[j], key@),
                forall|j: int| hi <= j < self.keys().len() ==> precedes(key@, #[trigger] self.keys()[j]),
            decreases hi - lo,
        {
            let mid: usize = lo + (hi - lo) / 2;
            assert(self.keys()[mid as int] == self.keys@[mid as int]@);
            match compare(self.keys[mid].as_str(), key) {
                Order::Equal => {
                    proof {
                        self.lemma_entry(mid as int);
                    }
                    return Ok(mid);
                },
                Order::Less => {
                    proof {
                        crate::order::lemma_order_of(self.keys()[mid as int], key@);
                        assert forall|j: int| 0 <= j < mid + 1 implies precedes(
                            #[trigger] self.keys()[j],
                            key@,
                        ) by {
                            if j < mid {
                                assert(precedes(self.keys()[j], self.keys()[mid as int]));
                                lemma_precedes_transitive(self.keys()[j], self.keys()[mid as int], key@);
                            }
                        }
                    }
                    lo = mid + 1;
                },
                Order::Greater => {
                    proof {
                        crate::order::lemma_order_of(self.keys()[mid as int], key@);
                        assert forall|j: int| mid <= j < self.keys().len() implies precedes(
                            key@,
                            #[trigger] self.keys()[j],
                        ) by {
                            if mid < j {
                                assert(precedes(self.keys()[mid as int], self.keys()[j]));
                                lemma_precedes_transitive(key@, self.keys()[mid as int], self.keys()[j]);
                            }
                        }
                    }
                    hi = mid;
                },
            }
        }
        proof {
            lemma_slot_absent(self.keys(), key@, lo as int);
        }
        Err(lo)
    }

    /// The value that `key` maps to, if the map holds the key.
    pub fn get(&self, key: &str) -> (r: Option<&V>)
        requires
            self.wf(),
        ensures
            match r {
                Some(v) => self@.contains_key(key@) && v@ == self@[key@],
                None => !self@.contains_key(key@),
            },
    {
        match self.find(key) {
            Ok(i) => Some(self.value(i)),
            Err(_) => None,
        }
    }

    /// Puts a new key with its value into the key's slot.
    pub fn insert_at(&mut self, i: usize, key: String, value: V)
        requires
            old(self).wf(),
            slot(old(self).keys(), key@, i as int),
        ensures
            final(self).wf(),
            final(self).keys() == old(self).keys().insert(i as int, key@),
            final(self).values() == old(self).values().insert(i as int, value),
            final(self)@ == old(self)@.insert(key@, value@),
    {
        let ghost before = *self;
        self.keys.insert(i, key);
        self.values.insert(i, value);
        proof {
            assert(self.keys() =~= before.keys().insert(i as int, key@));
            lemma_insert_increasing(before.keys(), key@, i as int);
            lemma_slot_absent(before.keys(), key@, i as int);
            let want = before@.insert(key@, value@);
            assert forall|k: Seq<char>| self@.contains_key(k) <==> want.contains_key(k) by {
                if before.keys().contains(k) {
                    let j = choose|j: int| 0 <= j < before.keys().len() && before.keys()[j] == k;
                    if j < i {
                        assert(self.keys()[j] == k);
                    } else {
                        assert(self.keys()[j + 1] == k);
                    }
                }
                if k == key@ {
                    assert(self.keys()[i as int] == k);
                }
                if self.keys().contains(k) && k != key@ {
                    let j = choose|j: int| 0 <= j < self.keys().len() && self.keys()[j] == k;
                    if j < i {
                        assert(before.keys()[j] == k);
                    } else {
                        assert(before.keys()[j - 1] == k);
                    }
                }
            }
            assert forall|k: Seq<char>| self@.contains_key(k) implies self@[k] == want[k] by {
                let j = choose|j: int| 0 <= j < self.keys().len() && self.keys()[j] == k;
                self.lemma_entry(j);
                if j < i {
                    before.lemma_entry(j);
                } else if j > i {
                    before.lemma_entry(j - 1);
                }
            }
            assert(self@ =~= want);
        }
    }

    /// What the view becomes when the value at place `i` is changed.
    pub proof fn lemma_update(&self, after: &Self, i: int)
        requires
            self.wf(),
            0 <= i < self.keys().len(),
            after.keys() == self.keys(),
            after.values() == self.values().update(i, after.values()[i]),
        ensures
            after.wf(),
            after@ == self@.insert(self.keys()[i], after.values()[i]@),
    {
        let want = self@.insert(self.keys()[i], after.values()[i]@);
        assert(self.keys().contains(self.keys()[i]));
        assert forall|k: Seq<char>| after@.contains_key(k) implies after@[k] == want[k] by {
            let j = choose|j: int| 0 <= j < self.keys().len() && self.keys()[j] == k;
            self.lemma_entry(j);
            after.lemma_entry(j);
            self.lemma_entry(i);
        }
        assert(after@ =~= want);
    }
}

} // verus!

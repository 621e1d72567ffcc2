//! Ordered containers kept in sorted vectors.
//!
//! `OrdSet` is a set of `u64`, `OrdMap` a map from `u64` to any value. Both
//! keep their keys in a strictly increasing vector, so that the least key at or
//! above a bound, and the greatest below one, are found by binary search.
//! Their contracts speak of the mathematical set and map only.

use vstd::prelude::*;

verus! {

/// Whether each key of `keys` is smaller than all keys after it.
pub open spec fn increasing(keys: Seq<u64>) -> bool {
    forall|i: int, j: int| 0 <= i < j < keys.len() ==> keys[i] < keys[j]
}

/// The set of the keys of `keys`, as integers.
pub open spec fn key_set(keys: Seq<u64>) -> Set<int> {
    Set::new(|k: int| exists|i: int| 0 <= i < keys.len() && #[trigger] keys[i] == k)
}

/// The position of `k` in `keys`, where it occurs.
pub open spec fn position(keys: Seq<u64>, k: int) -> int {
    choose|i: int| 0 <= i < keys.len() && #[trigger] keys[i] == k
}

/// In an increasing sequence a key occurs at one position only.
pub proof fn lemma_position(keys: Seq<u64>, i: int)
    requires
        increasing(keys),
        0 <= i < keys.len(),
    ensures
        key_set(keys).contains(keys[i] as int),
        position(keys, keys[i] as int) == i,
{
    let k = keys[i] as int;
    let j = position(keys, k);
    assert(0 <= j < keys.len() && keys[j] == k);
    if j < i {
        assert(keys[j] < keys[i]);
    }
    if i < j {
        assert(keys[i] < keys[j]);
    }
}

/// Inserting a key at its rank keeps the sequence increasing and adds the key
/// to the set.
pub proof fn lemma_insert_key(keys: Seq<u64>, i: int, k: u64)
    requires
        increasing(keys),
        0 <= i <= keys.len(),
        forall|j: int| 0 <= j < i ==> keys[j] < k,
        forall|j: int| i <= j < keys.len() ==> k < keys[j],
    ensures
        increasing(keys.insert(i, k)),
        key_set(keys.insert(i, k)) == key_set(keys).insert(k as int),
{
    let after = keys.insert(i, k);
    assert forall|x: int| key_set(after).contains(x) <==> key_set(keys).insert(
        k as int,
    ).contains(x) by {
        if key_set(after).contains(x) {
            let j = choose|j: int| 0 <= j < after.len() && #[trigger] after[j] == x;
            if j < i {
                assert(keys[j] == x);
            } else if j > i {
                assert(keys[j - 1] == x);
            }
        }
        if key_set(keys).contains(x) {
            let j = choose|j: int| 0 <= j < keys.len() && #[trigger] keys[j] == x;
            if j < i {
                assert(after[j] == x);
            } else {
                assert(after[j + 1] == x);
            }
        }
        if x == k {
            assert(after[i] == x);
        }
    }
    assert(key_set(after) =~= key_set(keys).insert(k as int));
}

/// Removing the key at a position keeps the sequence increasing and takes the
/// key out of the set.
pub proof fn lemma_remove_key(keys: Seq<u64>, i: int)
    requires
        increasing(keys),
        0 <= i < keys.len(),
    ensures
        increasing(keys.remove(i)),
        key_set(keys.remove(i)) == key_set(keys).remove(keys[i] as int),
{
    let after = keys.remove(i);
    let k = keys[i] as int;
    assert forall|x: int| key_set(after).contains(x) <==> key_set(keys).remove(k).contains(
        x,
    ) by {
        if key_set(after).contains(x) {
            let j = choose|j: int| 0 <= j < after.len() && #[trigger] after[j] == x;
            if j < i {
                assert(keys[j] == x);
                assert(keys[j] < keys[i]);
            } else {
                assert(keys[j + 1] == x);
                assert(keys[i] < keys[j + 1]);
            }
        }
        if key_set(keys).contains(x) && x != k {
            let j = choose|j: int| 0 <= j < keys.len() && #[trigger] keys[j] == x;
            if j < i {
                assert(after[j] == x);
            } else {
                assert(after[j - 1] == x);
            }
        }
    }
    assert(key_set(after) =~= key_set(keys).remove(k));
}

/// An increasing sequence holds as many keys as it is long.
pub proof fn lemma_key_count(keys: Seq<u64>)
    requires
        increasing(keys),
    ensures
        key_set(keys).finite(),
        key_set(keys).len() == keys.len(),
    decreases keys.len(),
{
    if keys.len() == 0 {
        assert(key_set(keys) =~= Set::empty());
    } else {
        let last = (keys.len() - 1) as int;
        lemma_remove_key(keys, last);
        lemma_position(keys, last);
        lemma_key_count(keys.remove(last));
        assert(key_set(keys) =~= key_set(keys.remove(last)).insert(keys[last] as int));
    }
}

/// The number of keys of `keys` that are smaller than `k`: the position of
/// the least key at or above `k`, or the length where there is none.
pub fn rank(keys: &Vec<u64>, k: u64) -> (i: usize)
    requires
        increasing(keys@),
    ensures
        i <= keys.len(),
        forall|j: int| 0 <= j < i ==> keys[j] < k,
        forall|j: int| i <= j < keys.len() ==> keys[j] >= k,
{
    let mut lo: usize = 0;
    let mut hi: usize = keys.len();
    while lo < hi
        invariant
            lo <= hi <= keys.len(),
            increasing(keys@),
            forall|j: int| 0 <= j < lo ==> keys[j] < k,
            forall|j: int| hi <= j < keys.len() ==> keys[j] >= k,
        decreases hi - lo,
    {
        let mid: usize = lo + (hi - lo) / 2;
        if keys[mid] < k {
            assert forall|j: int| 0 <= j < mid + 1 implies keys[j] < k by {
                if j < mid {
                    assert(keys[j] < keys[mid as int]);
                }
            }
            lo = mid + 1;
        } else {
            assert forall|j: int| mid <= j < keys.len() implies keys[j] >= k by {
                if mid < j {
                    assert(keys[mid as int] < keys[j]);
                }
            }
            hi = mid;
        }
    }
    lo
}

/// A set of `u64` in increasing order.
#[derive(Debug)]
pub struct OrdSet {
    items: Vec<u64>,
}

impl View for OrdSet {
    type V = Set<int>;

    closed spec fn view(&self) -> Set<int> {
        key_set(self.items@)
    }
}

impl OrdSet {
    /// The representation invariant: the items stand in increasing order.
    pub closed spec fn wf(&self) -> bool {
        increasing(self.items@)
    }

    /// The items in increasing order.
    pub closed spec fn items(&self) -> Seq<u64> {
        self.items@
    }

    /// The ordered items and the set hold the same keys.
    pub proof fn lemma_items(&self)
        requires
            self.wf(),
        ensures
            increasing(self.items()),
            self@ == key_set(self.items()),
            self@.finite(),
            self@.len() == self.items().len(),
    {
        lemma_key_count(self.items@);
    }

    /// The empty set.
    pub fn new() -> (set: OrdSet)
        ensures
            set.wf(),
            set@ == Set::<int>::empty(),
    {
        let set = OrdSet { items: Vec::new() };
        assert(set@ =~= Set::<int>::empty());
        set
    }

    /// The number of items.
    pub fn len(&self) -> (n: usize)
        requires
            self.wf(),
        ensures
            n == self.items().len(),
    {
        self.items.len()
    }

    /// Whether the set holds nothing.
    pub fn is_empty(&self) -> (empty: bool)
        requires
            self.wf(),
        ensures
            empty <==> self@ == Set::<int>::empty(),
    {
        let empty = self.items.len() == 0;
        proof {
            if empty {
                assert(self@ =~= Set::<int>::empty());
            } else {
                lemma_position(self.items@, 0);
            }
        }
        empty
    }

    /// The item at a position in increasing order.
    pub fn at(&self, i: usize) -> (k: u64)
        requires
            self.wf(),
            i < self.items().len(),
        ensures
            k == self.items()[i as int],
    {
        self.items[i]
    }

    /// The least item.
    pub fn first(&self) -> (least: Option<u64>)
        requires
            self.wf(),
        ensures
            match least {
                Some(a) => self@.contains(a as int) && forall|b: int|
                    self@.contains(b) ==> a <= b,
                None => self@ == Set::<int>::empty(),
            },
    {
        if self.items.len() == 0 {
            assert(self@ =~= Set::<int>::empty());
            None
        } else {
            let a = self.items[0];
            proof {
                lemma_position(self.items@, 0);
                assert forall|b: int| self@.contains(b) implies a <= b by {
                    let j = position(self.items@, b);
                    if 0 < j {
                        assert(self.items@[0] < self.items@[j]);
                    }
                }
            }
            Some(a)
        }
    }

    /// Adds `k`; says whether it was new.
    pub fn insert(&mut self, k: u64) -> (added: bool)
        requires
            old(self).wf(),
        ensures
            final(self).wf(),
            final(self)@ == old(self)@.insert(k as int),
            added == !old(self)@.contains(k as int),
    {
        let i = rank(&self.items, k);
        if i < self.items.len() && self.items[i] == k {
            proof {
                lemma_position(self.items@, i as int);
                assert(self@ =~= self@.insert(k as int));
            }
            false
        } else {
            proof {
                if self@.contains(k as int) {
                    let j = position(self.items@, k as int);
                    assert(self.items@[j] == k);
                }
                assert forall|j: int| i <= j < self.items@.len() implies k < self.items@[j] by {
                    if i < j {
                        assert(self.items@[i as int] < self.items@[j]);
                    }
                }
                lemma_insert_key(self.items@, i as int, k);
            }
            self.items.insert(i, k);
            true
        }
    }

    /// Takes `k` out; says whether it was there.
    pub fn remove(&mut self, k: u64) -> (removed: bool)
        requires
            old(self).wf(),
        ensures
            final(self).wf(),
            final(self)@ == old(self)@.remove(k as int),
            removed == old(self)@.contains(k as int),
    {
        let i = rank(&self.items, k);
        if i < self.items.len() && self.items[i] == k {
            proof {
                lemma_position(self.items@, i as int);
                lemma_remove_key(self.items@, i as int);
            }
            self.items.remove(i);
            true
        } else {
            proof {
                if self@.contains(k as int) {
                    let j = position(self.items@, k as int);
                    assert(self.items@[j] == k);
                }
                assert(self@ =~= self@.remove(k as int));
            }
            false
        }
    }
}

/// A map from `u64` keys to values, in increasing order of the keys.
#[derive(Debug)]
pub struct OrdMap<V> {
    keys: Vec<u64>,
    vals: Vec<V>,
}

impl<V> View for OrdMap<V> {
    type V = Map<int, V>;

    closed spec fn view(&self) -> Map<int, V> {
        Map::new(
            |k: int| key_set(self.keys@).contains(k),
            |k: int| self.vals@[position(self.keys@, k)],
        )
    }
}

impl<V> OrdMap<V> {
    /// The representation invariant: one value for each key, the keys in
    /// increasing order.
    pub closed spec fn wf(&self) -> bool {
        &&& increasing(self.keys@)
        &&& self.keys@.len() == self.vals@.len()
    }

    /// The keys in increasing order.
    pub closed spec fn keys(&self) -> Seq<u64> {
        self.keys@
    }

    /// The values in the order of their keys.
    pub closed spec fn values(&self) -> Seq<V> {
        self.vals@
    }

    /// The ordered keys and values hold what the map holds.
    pub proof fn lemma_entries(&self)
        requires
            self.wf(),
        ensures
            increasing(self.keys()),
            self.keys().len() == self.values().len(),
            self@.dom() == key_set(self.keys()),
            self@.dom().finite(),
            self@.dom().len() == self.keys().len(),
            forall|i: int|
                0 <= i < self.keys().len() ==> self@.contains_key(#[trigger] self.keys()[i] as int)
                    && self@[self.keys()[i] as int] == self.values()[i],
    {
        lemma_key_count(self.keys@);
        assert(self@.dom() =~= key_set(self.keys@));
        assert forall|i: int| 0 <= i < self.keys@.len() implies self@.contains_key(
            #[trigger] self.keys@[i] as int,
        ) && self@[self.keys@[i] as int] == self.vals@[i] by {
            lemma_position(self.keys@, i);
        }
    }

    /// The empty map.
    pub fn new() -> (map: OrdMap<V>)
        ensures
            map.wf(),
            map@ == Map::<int, V>::empty(),
    {
        let map = OrdMap { keys: Vec::new(), vals: Vec::new() };
        assert(map@ =~= Map::<int, V>::empty());
        map
    }

    /// The number of entries.
    pub fn len(&self) -> (n: usize)
        requires
            self.wf(),
        ensures
            n == self.keys().len(),
    {
        self.keys.len()
    }

    /// The entry at a position in increasing order of the keys.
    pub fn entry(&self, i: usize) -> (entry: (u64, &V))
        requires
            self.wf(),
            i < self.keys().len(),
        ensures
            entry.0 == self.keys()[i as int],
            *entry.1 == self.values()[i as int],
    {
        (self.keys[i], &self.vals[i])
    }

    /// The value under `k`.
    pub fn get(&self, k: u64) -> (value: Option<&V>)
        requires
            self.wf(),
        ensures
            match value {
                Some(v) => self@.contains_key(k as int) && *v == self@[k as int],
                None => !self@.contains_key(k as int),
            },
    {
        let i = rank(&self.keys, k);
        if i < self.keys.len() && self.keys[i] == k {
            proof {
                lemma_position(self.keys@, i as int);
            }
            Some(&self.vals[i])
        } else {
            proof {
                if self@.contains_key(k as int) {
                    let j = position(self.keys@, k as int);
                    assert(self.keys@[j] == k);
                }
            }
            None
        }
    }

    /// The entry with the least key at or above `k`.
    pub fn first_at_least(&self, k: u64) -> (entry: Option<(u64, &V)>)
        requires
            self.wf(),
        ensures
            match entry {
                Some((a, v)) => {
                    &&& self@.contains_key(a as int)
                    &&& *v == self@[a as int]
                    &&& k <= a
                    &&& forall|b: int| self@.contains_key(b) && k <= b ==> a <= b
                },
                None => forall|b: int| self@.contains_key(b) ==> b < k,
            },
    {
        let i = rank(&self.keys, k);
        if i < self.keys.len() {
            let a = self.keys[i];
            proof {
                lemma_position(self.keys@, i as int);
                assert forall|b: int| self@.contains_key(b) && k <= b implies a <= b by {
                    let j = position(self.keys@, b);
                    assert(self.keys@[j] == b);
                    if j > i {
                        assert(self.keys@[i as int] < self.keys@[j]);
                    }
                }
            }
            Some((a, &self.vals[i]))
        } else {
            proof {
                assert forall|b: int| self@.contains_key(b) implies b < k by {
                    let j = position(self.keys@, b);
                    assert(self.keys@[j] == b);
                }
            }
            None
        }
    }

    /// The entry with the greatest key below `k`.
    pub fn last_below(&self, k: u64) -> (entry: Option<(u64, &V)>)
        requires
            self.wf(),
        ensures
            match entry {
                Some((a, v)) => {
                    &&& self@.contains_key(a as int)
                    &&& *v == self@[a as int]
                    &&& a < k
                    &&& forall|b: int| self@.contains_key(b) && b < k ==> b <= a
                },
                None => forall|b: int| self@.contains_key(b) ==> k <= b,
            },
    {
        let i = rank(&self.keys, k);
        if i > 0 {
            let a = self.keys[i - 1];
            proof {
                lemma_position(self.keys@, i - 1);
                assert forall|b: int| self@.contains_key(b) && b < k implies b <= a by {
                    let j = position(self.keys@, b);
                    assert(self.keys@[j] == b);
                    if j < i - 1 {
                        assert(self.keys@[j] < self.keys@[i - 1]);
                    }
                }
            }
            Some((a, &self.vals[i - 1]))
        } else {
            proof {
                assert forall|b: int| self@.contains_key(b) implies k <= b by {
                    let j = position(self.keys@, b);
                    assert(self.keys@[j] == b);
                }
            }
            None
        }
    }

    /// The entry with the greatest key at or below `k`.
    pub fn last_at_most(&self, k: u64) -> (entry: Option<(u64, &V)>)
        requires
            self.wf(),
        ensures
            match entry {
                Some((a, v)) => {
                    &&& self@.contains_key(a as int)
                    &&& *v == self@[a as int]
                    &&& a <= k
                    &&& forall|b: int| self@.contains_key(b) && b <= k ==> b <= a
                },
                None => forall|b: int| self@.contains_key(b) ==> k < b,
            },
    {
        let i = rank(&self.keys, k);
        if i < self.keys.len() && self.keys[i] == k {
            proof {
                lemma_position(self.keys@, i as int);
            }
            Some((k, &self.vals[i]))
        } else {
            proof {
                if self@.contains_key(k as int) {
                    let j = position(self.keys@, k as int);
                    assert(self.keys@[j] == k);
                }
            }
            self.last_below(k)
        }
    }

    /// The entry with the greatest key.
    pub fn last(&self) -> (entry: Option<(u64, &V)>)
        requires
            self.wf(),
        ensures
            match entry {
                Some((a, v)) => {
                    &&& self@.contains_key(a as int)
                    &&& *v == self@[a as int]
                    &&& forall|b: int| self@.contains_key(b) ==> b <= a
                },
                None => self@ == Map::<int, V>::empty(),
            },
    {
        let n = self.keys.len();
        if n > 0 {
            let a = self.keys[n - 1];
            proof {
                lemma_position(self.keys@, n - 1);
                assert forall|b: int| self@.contains_key(b) implies b <= a by {
                    let j = position(self.keys@, b);
                    assert(self.keys@[j] == b);
                    if j < n - 1 {
                        assert(self.keys@[j] < self.keys@[n - 1]);
                    }
                }
            }
            Some((a, &self.vals[n - 1]))
        } else {
            assert(self@ =~= Map::<int, V>::empty());
            None
        }
    }

    /// Puts `v` under the new key `k`.
    pub fn insert(&mut self, k: u64, v: V)
        requires
            old(self).wf(),
            !old(self)@.contains_key(k as int),
        ensures
            final(self).wf(),
            final(self)@ == old(self)@.insert(k as int, v),
    {
        let i = rank(&self.keys, k);
        proof {
            assert forall|j: int| i <= j < self.keys@.len() implies k < self.keys@[j] by {
                lemma_position(self.keys@, j);
            }
            lemma_insert_key(self.keys@, i as int, k);
        }
        let ghost before = *self;
        self.keys.insert(i, k);
        self.vals.insert(i, v);
        proof {
            assert forall|x: int| self@.contains_key(x) implies self@[x] == before@.insert(
                k as int,
                v,
            )[x] by {
                let j = position(self.keys@, x);
                assert(self.keys@[j] == x);
                if j < i {
                    lemma_position(before.keys@, j);
                } else if j > i {
                    lemma_position(before.keys@, j - 1);
                }
            }
            assert(self@ =~= before@.insert(k as int, v));
        }
    }

    /// Takes the entry under `k` out and hands its value back.
    pub fn remove(&mut self, k: u64) -> (value: Option<V>)
        requires
            old(self).wf(),
        ensures
            final(self).wf(),
            final(self)@ == old(self)@.remove(k as int),
            match value {
                Some(v) => old(self)@.contains_key(k as int) && v == old(self)@[k as int],
                None => !old(self)@.contains_key(k as int),
            },
    {
        let i = rank(&self.keys, k);
        if i < self.keys.len() && self.keys[i] == k {
            proof {
                lemma_position(self.keys@, i as int);
                lemma_remove_key(self.keys@, i as int);
            }
            let ghost before = *self;
            self.keys.remove(i);
            let v = self.vals.remove(i);
            proof {
                assert forall|x: int| self@.contains_key(x) implies self@[x] == before@[x] by {
                    let j = position(self.keys@, x);
                    assert(self.keys@[j] == x);
                    if j < i {
                        lemma_position(before.keys@, j);
                    } else {
                        lemma_position(before.keys@, j + 1);
                    }
                }
                assert(self@ =~= before@.remove(k as int));
            }
            Some(v)
        } else {
            proof {
                if self@.contains_key(k as int) {
                    let j = position(self.keys@, k as int);
                    assert(self.keys@[j] == k);
                }
                assert(self@ =~= self@.remove(k as int));
            }
            None
        }
    }
}

} // verus!

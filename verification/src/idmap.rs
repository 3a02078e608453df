//! An id-keyed map with entries held in strictly ascending key order.
//!
//! The state document maps ids to epics and to stories. Keeping the entries
//! sorted gives a canonical entry order, which the encoder and the pages rely
//! on, and makes every lookup and update a plain walk of a vector.

use vstd::prelude::*;

verus! {

/// Entry keys are strictly ascending (so in particular distinct).
pub open spec fn keys_sorted<T>(s: Seq<(u32, T)>) -> bool {
    forall|i: int, j: int| 0 <= i < j < s.len() ==> s[i].0 < s[j].0
}

/// The mapping an entry sequence denotes. On sequences with distinct keys the
/// recursion direction does not matter.
pub open spec fn map_of<T>(s: Seq<(u32, T)>) -> Map<u32, T>
    decreases s.len(),
{
    if s.len() == 0 {
        Map::empty()
    } else {
        map_of(s.drop_first()).insert(s[0].0, s[0].1)
    }
}

/// The entry sequence after a sorted insertion of `(key, v)`, replacing an
/// entry with an equal key.
pub open spec fn entries_insert<T>(s: Seq<(u32, T)>, key: u32, v: T) -> Seq<(u32, T)>
    decreases s.len(),
{
    if s.len() == 0 {
        seq![(key, v)]
    } else if key < s[0].0 {
        seq![(key, v)] + s
    } else if key == s[0].0 {
        seq![(key, v)] + s.drop_first()
    } else {
        seq![s[0]] + entries_insert(s.drop_first(), key, v)
    }
}

/// The entry sequence after removing the entry with key `key`, if any.
pub open spec fn entries_remove<T>(s: Seq<(u32, T)>, key: u32) -> Seq<(u32, T)>
    decreases s.len(),
{
    if s.len() == 0 {
        s
    } else if s[0].0 == key {
        s.drop_first()
    } else {
        seq![s[0]] + entries_remove(s.drop_first(), key)
    }
}

/// On a sorted entry sequence, every entry is in the denoted map with its own
/// value, and every key of the map has an entry.
pub proof fn lemma_map_of_entries<T>(s: Seq<(u32, T)>)
    requires
        keys_sorted(s),
    ensures
        forall|i: int|
            0 <= i < s.len() ==> map_of(s).contains_key(#[trigger] s[i].0) && map_of(s)[s[i].0]
                == s[i].1,
        forall|k: u32|
            #[trigger] map_of(s).contains_key(k) ==> exists|i: int|
                0 <= i < s.len() && s[i].0 == k,
    decreases s.len(),
{
    if s.len() > 0 {
        let t = s.drop_first();
        assert(keys_sorted(t));
        lemma_map_of_entries(t);
        assert(map_of(s) == map_of(t).insert(s[0].0, s[0].1));
        assert forall|i: int| 0 <= i < s.len() implies map_of(s).contains_key(s[i].0) && map_of(
            s,
        )[s[i].0] == s[i].1 by {
            if i > 0 {
                assert(t[i - 1] == s[i]);
                assert(map_of(t).contains_key(t[i - 1].0) && map_of(t)[t[i - 1].0] == t[i - 1].1);
                assert(s[0].0 < s[i].0);
            }
        }
        assert forall|k: u32| map_of(s).contains_key(k) implies exists|i: int|
            0 <= i < s.len() && s[i].0 == k by {
            if k == s[0].0 {
                assert(s[0].0 == k);
            } else {
                assert(map_of(t).contains_key(k));
                let j = choose|j: int| 0 <= j < t.len() && t[j].0 == k;
                assert(t[j] == s[j + 1]);
                assert(s[j + 1].0 == k);
            }
        }
    }
}

/// Sorted insertion denotes insertion into the map, keeps the keys sorted,
/// and introduces no key besides `key`.
pub proof fn lemma_entries_insert<T>(s: Seq<(u32, T)>, key: u32, v: T)
    requires
        keys_sorted(s),
    ensures
        keys_sorted(entries_insert(s, key, v)),
        map_of(entries_insert(s, key, v)) == map_of(s).insert(key, v),
        forall|i: int|
            0 <= i < entries_insert(s, key, v).len() ==> (#[trigger] entries_insert(
                s,
                key,
                v,
            )[i].0 == key || exists|j: int|
                0 <= j < s.len() && s[j].0 == entries_insert(s, key, v)[i].0),
    decreases s.len(),
{
    let r = entries_insert(s, key, v);
    if s.len() == 0 {
        assert(r.drop_first() =~= Seq::<(u32, T)>::empty());
        assert(map_of(r) == map_of(r.drop_first()).insert(r[0].0, r[0].1));
        assert(map_of(r) =~= map_of(s).insert(key, v));
        assert(forall|i: int| 0 <= i < r.len() ==> #[trigger] r[i].0 == key);
    } else if key < s[0].0 {
        assert(r.drop_first() =~= s);
        assert(r[0] == (key, v));
        assert(map_of(r) == map_of(s).insert(key, v));
        assert forall|i: int| 0 <= i < r.len() implies (#[trigger] r[i].0 == key || exists|j: int|
            0 <= j < s.len() && s[j].0 == r[i].0) by {
            if i > 0 {
                assert(s[i - 1].0 == r[i].0);
            }
        }
        assert forall|i: int, j: int| 0 <= i < j < r.len() implies r[i].0 < r[j].0 by {
            if i > 0 {
                assert(r[i] == s[i - 1] && r[j] == s[j - 1]);
            } else {
                assert(r[j] == s[j - 1]);
                assert(key < s[0].0);
                if j > 1 {
                    assert(s[0].0 < s[j - 1].0);
                }
            }
        }
    } else if key == s[0].0 {
        let t = s.drop_first();
        assert(r.drop_first() =~= t);
        assert(r[0] == (key, v));
        assert(map_of(r) == map_of(t).insert(key, v));
        assert(map_of(s) == map_of(t).insert(s[0].0, s[0].1));
        assert(map_of(r) =~= map_of(s).insert(key, v));
        assert forall|i: int| 0 <= i < r.len() implies (#[trigger] r[i].0 == key || exists|j: int|
            0 <= j < s.len() && s[j].0 == r[i].0) by {
            if i > 0 {
                assert(s[i].0 == r[i].0);
            }
        }
        assert forall|i: int, j: int| 0 <= i < j < r.len() implies r[i].0 < r[j].0 by {
            if i > 0 {
                assert(r[i] == s[i] && r[j] == s[j]);
            } else {
                assert(r[j] == s[j]);
                assert(s[0].0 < s[j].0);
            }
        }
    } else {
        let t = s.drop_first();
        assert(keys_sorted(t));
        lemma_entries_insert(t, key, v);
        let rr = entries_insert(t, key, v);
        assert(r == seq![s[0]] + rr);
        assert(r.drop_first() =~= rr);
        assert(r[0] == s[0]);
        assert(map_of(r) == map_of(rr).insert(s[0].0, s[0].1));
        assert(map_of(rr) == map_of(t).insert(key, v));
        assert(map_of(s) == map_of(t).insert(s[0].0, s[0].1));
        assert(map_of(r) =~= map_of(s).insert(key, v));
        // every key of `rr` is `key` or a key of `t`, and all of those lie
        // strictly above s[0].0
        assert forall|i: int| 0 <= i < r.len() && i > 0 implies r[i].0 > s[0].0 by {
            assert(r[i] == rr[i - 1]);
            if rr[i - 1].0 == key {
            } else {
                let j = choose|j: int| 0 <= j < t.len() && t[j].0 == rr[i - 1].0;
                assert(t[j] == s[j + 1]);
                assert(s[0].0 < s[j + 1].0);
            }
        }
        assert forall|i: int, j: int| 0 <= i < j < r.len() implies r[i].0 < r[j].0 by {
            if i > 0 {
                assert(r[i] == rr[i - 1] && r[j] == rr[j - 1]);
            }
        }
        assert forall|i: int| 0 <= i < r.len() implies (#[trigger] r[i].0 == key || exists|j: int|
            0 <= j < s.len() && s[j].0 == r[i].0) by {
            if i == 0 {
                assert(s[0].0 == r[0].0);
            } else {
                assert(r[i] == rr[i - 1]);
                if rr[i - 1].0 != key {
                    let j = choose|j: int| 0 <= j < t.len() && t[j].0 == rr[i - 1].0;
                    assert(t[j] == s[j + 1]);
                    assert(s[j + 1].0 == r[i].0);
                }
            }
        }
    }
}

/// Sorted removal denotes removal from the map, keeps the keys sorted, and
/// introduces no key.
pub proof fn lemma_entries_remove<T>(s: Seq<(u32, T)>, key: u32)
    requires
        keys_sorted(s),
    ensures
        keys_sorted(entries_remove(s, key)),
        map_of(entries_remove(s, key)) == map_of(s).remove(key),
        forall|i: int|
            0 <= i < entries_remove(s, key).len() ==> exists|j: int|
                0 <= j < s.len() && s[j].0 == #[trigger] entries_remove(s, key)[i].0,
    decreases s.len(),
{
    let r = entries_remove(s, key);
    if s.len() == 0 {
        assert(map_of(r) =~= map_of(s).remove(key));
    } else if s[0].0 == key {
        let t = s.drop_first();
        assert(keys_sorted(t));
        lemma_map_of_entries(t);
        if map_of(t).contains_key(key) {
            let j = choose|j: int| 0 <= j < t.len() && t[j].0 == key;
            assert(t[j] == s[j + 1]);
            assert(s[0].0 < s[j + 1].0);
            assert(false);
        }
        assert(map_of(s) == map_of(t).insert(s[0].0, s[0].1));
        assert(map_of(r) =~= map_of(s).remove(key));
        assert forall|i: int| 0 <= i < r.len() implies exists|j: int|
            0 <= j < s.len() && s[j].0 == (#[trigger] r[i]).0 by {
            assert(s[i + 1].0 == r[i].0);
        }
    } else {
        let t = s.drop_first();
        assert(keys_sorted(t));
        lemma_entries_remove(t, key);
        let rr = entries_remove(t, key);
        assert(r == seq![s[0]] + rr);
        assert(r.drop_first() =~= rr);
        assert(r[0] == s[0]);
        assert(map_of(r) == map_of(rr).insert(s[0].0, s[0].1));
        assert(map_of(rr) == map_of(t).remove(key));
        assert(map_of(s) == map_of(t).insert(s[0].0, s[0].1));
        assert(map_of(r) =~= map_of(s).remove(key));
        assert forall|i: int| 0 <= i < r.len() && i > 0 implies r[i].0 > s[0].0 by {
            assert(r[i] == rr[i - 1]);
            let j = choose|j: int| 0 <= j < t.len() && t[j].0 == rr[i - 1].0;
            assert(t[j] == s[j + 1]);
            assert(s[0].0 < s[j + 1].0);
        }
        assert forall|i: int, j: int| 0 <= i < j < r.len() implies r[i].0 < r[j].0 by {
            if i > 0 {
                assert(r[i] == rr[i - 1] && r[j] == rr[j - 1]);
            }
        }
        assert forall|i: int| 0 <= i < r.len() implies exists|j: int|
            0 <= j < s.len() && s[j].0 == (#[trigger] r[i]).0 by {
            if i == 0 {
                assert(s[0].0 == r[0].0);
            } else {
                assert(r[i] == rr[i - 1]);
                let j = choose|j: int| 0 <= j < t.len() && t[j].0 == rr[i - 1].0;
                assert(t[j] == s[j + 1]);
                assert(s[j + 1].0 == r[i].0);
            }
        }
    }
}

/// The entry sequence after removing every key of `keys` in turn.
pub open spec fn entries_remove_all<T>(s: Seq<(u32, T)>, keys: Seq<u32>) -> Seq<(u32, T)>
    decreases keys.len(),
{
    if keys.len() == 0 {
        s
    } else {
        entries_remove(entries_remove_all(s, keys.drop_last()), keys.last())
    }
}

/// Removing a batch of keys removes exactly those keys from the denoted map
/// and keeps the rest, with their values, in sorted order.
pub proof fn lemma_entries_remove_all<T>(s: Seq<(u32, T)>, keys: Seq<u32>)
    requires
        keys_sorted(s),
    ensures
        keys_sorted(entries_remove_all(s, keys)),
        forall|k: u32|
            #[trigger] map_of(entries_remove_all(s, keys)).contains_key(k) <==> (map_of(
                s,
            ).contains_key(k) && !keys.contains(k)),
        forall|k: u32|
            #[trigger] map_of(entries_remove_all(s, keys)).contains_key(k) ==> map_of(
                entries_remove_all(s, keys),
            )[k] == map_of(s)[k],
    decreases keys.len(),
{
    let r = entries_remove_all(s, keys);
    if keys.len() == 0 {
        assert(forall|k: u32| !keys.contains(k));
    } else {
        let kk = keys.drop_last();
        lemma_entries_remove_all(s, kk);
        let mid = entries_remove_all(s, kk);
        lemma_entries_remove(mid, keys.last());
        assert(r == entries_remove(mid, keys.last()));
        assert forall|k: u32| #[trigger] keys.contains(k) implies (kk.contains(k) || k
            == keys.last()) by {
            let i = choose|i: int| 0 <= i < keys.len() && keys[i] == k;
            if i < keys.len() - 1 {
                assert(kk[i] == k);
            }
        }
        assert forall|k: u32| #[trigger] kk.contains(k) implies keys.contains(k) by {
            let i = choose|i: int| 0 <= i < kk.len() && kk[i] == k;
            assert(keys[i] == k);
        }
        assert(keys[keys.len() - 1] == keys.last());
        assert(keys.contains(keys.last()));
    }
}

/// Inserting a key above every present key appends.
pub proof fn lemma_entries_insert_append<T>(s: Seq<(u32, T)>, key: u32, v: T)
    requires
        forall|j: int| 0 <= j < s.len() ==> (#[trigger] s[j].0) < key,
    ensures
        entries_insert(s, key, v) == s.push((key, v)),
    decreases s.len(),
{
    if s.len() == 0 {
        assert(entries_insert(s, key, v) =~= s.push((key, v)));
    } else {
        let t = s.drop_first();
        assert(forall|j: int| 0 <= j < t.len() ==> (#[trigger] t[j].0) == s[j + 1].0);
        lemma_entries_insert_append(t, key, v);
        assert(entries_insert(s, key, v) =~= s.push((key, v)));
    }
}

/// Removing an absent key changes nothing.
pub proof fn lemma_entries_remove_absent<T>(s: Seq<(u32, T)>, key: u32)
    requires
        forall|j: int| 0 <= j < s.len() ==> (#[trigger] s[j].0) != key,
    ensures
        entries_remove(s, key) == s,
    decreases s.len(),
{
    if s.len() > 0 {
        let t = s.drop_first();
        assert(forall|j: int| 0 <= j < t.len() ==> (#[trigger] t[j].0) == s[j + 1].0);
        lemma_entries_remove_absent(t, key);
        assert(entries_remove(s, key) =~= s);
    }
}

/// A map from ids to values, with entries kept in strictly ascending id order.
#[derive(Debug, PartialEq, Eq)]
pub struct IdMap<V> {
    pub entries: Vec<(u32, V)>,
}

impl<V: View> View for IdMap<V> {
    type V = Seq<(u32, V::V)>;

    open spec fn view(&self) -> Seq<(u32, V::V)> {
        Seq::new(self.entries@.len(), |i: int| (self.entries@[i].0, self.entries@[i].1@))
    }
}

impl<V: View> IdMap<V> {
    /// The representation invariant: entries sorted strictly by key.
    pub open spec fn wf(&self) -> bool {
        keys_sorted(self@)
    }

    /// The mapping this value denotes.
    pub open spec fn as_map(&self) -> Map<u32, V::V> {
        map_of(self@)
    }

    /// The empty map.
    pub fn new() -> (r: Self)
        ensures
            r@ == Seq::<(u32, V::V)>::empty(),
            r.wf(),
            r.as_map() == Map::<u32, V::V>::empty(),
    {
        let r = IdMap::<V> { entries: Vec::new() };
        proof {
            assert(r@ =~= Seq::<(u32, V::V)>::empty());
            assert(r.as_map() =~= Map::<u32, V::V>::empty());
        }
        r
    }

    /// How many entries the map holds.
    pub fn len(&self) -> (r: usize)
        ensures
            r == self@.len(),
    {
        self.entries.len()
    }

    /// The key of the `i`th entry in ascending key order.
    pub fn key_at(&self, i: usize) -> (r: u32)
        requires
            i < self@.len(),
        ensures
            r == self@[i as int].0,
    {
        self.entries[i].0
    }

    /// The value of the `i`th entry in ascending key order.
    pub fn value_at(&self, i: usize) -> (r: &V)
        requires
            i < self@.len(),
        ensures
            r@ == self@[i as int].1,
    {
        &self.entries[i].1
    }

    /// Whether `key` has an entry.
    pub fn contains_key(&self, key: &u32) -> (r: bool)
        requires
            self.wf(),
        ensures
            r == self.as_map().contains_key(*key),
    {
        let n = self.entries.len();
        for i in 0..n
            invariant
                n == self@.len(),
                self.wf(),
                forall|j: int| 0 <= j < i ==> (#[trigger] self@[j].0) != *key,
        {
            if self.entries[i].0 == *key {
                proof {
                    lemma_map_of_entries(self@);
                    assert(self@[i as int].0 == *key);
                }
                return true;
            }
        }
        proof {
            lemma_map_of_entries(self@);
            if self.as_map().contains_key(*key) {
                let j = choose|j: int| 0 <= j < self@.len() && self@[j].0 == *key;
                assert(false);
            }
        }
        false
    }

    /// The value under `key`, if any.
    pub fn get(&self, key: &u32) -> (r: Option<&V>)
        requires
            self.wf(),
        ensures
            match r {
                Some(v) => self.as_map().contains_key(*key) && v@ == self.as_map()[*key],
                None => !self.as_map().contains_key(*key),
            },
    {
        let n = self.entries.len();
        for i in 0..n
            invariant
                n == self@.len(),
                self.wf(),
                forall|j: int| 0 <= j < i ==> (#[trigger] self@[j].0) != *key,
        {
            if self.entries[i].0 == *key {
                proof {
                    lemma_map_of_entries(self@);
                    assert(self@[i as int].0 == *key);
                    assert(self@[i as int].1 == self.as_map()[*key]);
                }
                return Some(&self.entries[i].1);
            }
        }
        proof {
            lemma_map_of_entries(self@);
            if self.as_map().contains_key(*key) {
                let j = choose|j: int| 0 <= j < self@.len() && self@[j].0 == *key;
                assert(false);
            }
        }
        None
    }

    /// Insert `value` under `key`, replacing any previous value.
    pub fn insert(&mut self, key: u32, value: V)
        requires
            old(self).wf(),
        ensures
            final(self).wf(),
            final(self)@ == entries_insert(old(self)@, key, value@),
            final(self).as_map() == old(self).as_map().insert(key, value@),
    {
        let ghost s0 = old(self)@;
        let n = self.entries.len();
        let mut i: usize = 0;
        while i < n && self.entries[i].0 < key
            invariant
                s0 == old(self)@,
                old(self).wf(),
                n == self@.len(),
                0 <= i <= n,
                self@ == s0,
                forall|j: int| 0 <= j < i ==> (#[trigger] s0[j].0) < key,
            decreases n - i,
        {
            i += 1;
        }
        // `i` is the insertion position: everything before it is below `key`.
        if i < n && self.entries[i].0 == key {
            self.entries.remove(i);
            self.entries.insert(i, (key, value));
            proof {
                lemma_entries_insert(s0, key, value@);
                lemma_insert_at_position(s0, key, value@, i as int);
                assert(self@ =~= s0.take(i as int) + seq![(key, value@)] + s0.skip(i as int + 1));
            }
        } else {
            self.entries.insert(i, (key, value));
            proof {
                lemma_entries_insert(s0, key, value@);
                lemma_insert_at_position(s0, key, value@, i as int);
                assert(self@ =~= s0.take(i as int) + seq![(key, value@)] + s0.skip(i as int));
            }
        }
    }

    /// Remove and return the value under `key`, if any.
    pub fn remove(&mut self, key: &u32) -> (r: Option<V>)
        requires
            old(self).wf(),
        ensures
            final(self).wf(),
            final(self)@ == entries_remove(old(self)@, *key),
            final(self).as_map() == old(self).as_map().remove(*key),
            match r {
                Some(v) => old(self).as_map().contains_key(*key) && v@ == old(
                    self,
                ).as_map()[*key],
                None => !old(self).as_map().contains_key(*key),
            },
    {
        let ghost s0 = old(self)@;
        let n = self.entries.len();
        let mut i: usize = 0;
        while i < n && self.entries[i].0 != *key
            invariant
                s0 == old(self)@,
                old(self).wf(),
                n == self@.len(),
                0 <= i <= n,
                self@ == s0,
                forall|j: int| 0 <= j < i ==> (#[trigger] s0[j].0) != *key,
            decreases n - i,
        {
            i += 1;
        }
        if i < n {
            proof {
                lemma_entries_remove(s0, *key);
                lemma_map_of_entries(s0);
                assert(s0[i as int].0 == *key);
                assert(s0[i as int].1 == map_of(s0)[*key]);
            }
            let (_, v) = self.entries.remove(i);
            proof {
                lemma_remove_at_position(s0, *key, i as int);
                assert(self@ =~= s0.take(i as int) + s0.skip(i as int + 1));
            }
            Some(v)
        } else {
            proof {
                lemma_entries_remove(s0, *key);
                lemma_map_of_entries(s0);
                lemma_entries_remove_absent(s0, *key);
                assert(self@ == s0);
                if map_of(s0).contains_key(*key) {
                    let j = choose|j: int| 0 <= j < s0.len() && s0[j].0 == *key;
                    assert(s0[j].0 == *key);
                    assert(false);
                }
            }
            None
        }
    }
}

/// On a sorted sequence whose first `p` keys lie below `key` and whose `p`th
/// key (if any) does not, sorted insertion inserts exactly at position `p`.
proof fn lemma_insert_at_position<T>(s: Seq<(u32, T)>, key: u32, v: T, p: int)
    requires
        keys_sorted(s),
        0 <= p <= s.len(),
        forall|j: int| 0 <= j < p ==> (#[trigger] s[j].0) < key,
        p < s.len() ==> s[p].0 >= key,
    ensures
        p < s.len() && s[p].0 == key ==> entries_insert(s, key, v) == s.take(p) + seq![(key, v)]
            + s.skip(p + 1),
        !(p < s.len() && s[p].0 == key) ==> entries_insert(s, key, v) == s.take(p) + seq![
            (key, v),
        ] + s.skip(p),
    decreases s.len(),
{
    if p == 0 {
        if s.len() == 0 {
            assert(entries_insert(s, key, v) =~= s.take(0) + seq![(key, v)] + s.skip(0));
        } else if key < s[0].0 {
            assert(entries_insert(s, key, v) =~= s.take(0) + seq![(key, v)] + s.skip(0));
        } else {
            assert(s[0].0 == key);
            assert(entries_insert(s, key, v) =~= s.take(0) + seq![(key, v)] + s.skip(1));
        }
    } else {
        let t = s.drop_first();
        assert(keys_sorted(t));
        assert(forall|j: int| 0 <= j < p - 1 ==> (#[trigger] t[j].0) == s[j + 1].0);
        lemma_insert_at_position(t, key, v, p - 1);
        assert(s[0].0 < key);
        let r = entries_insert(s, key, v);
        let rr = entries_insert(t, key, v);
        assert(r == seq![s[0]] + rr);
        if p < s.len() && s[p].0 == key {
            assert(t[p - 1].0 == key);
            assert(rr == t.take(p - 1) + seq![(key, v)] + t.skip(p));
            assert(r =~= s.take(p) + seq![(key, v)] + s.skip(p + 1));
        } else {
            assert(p - 1 < t.len() ==> t[p - 1].0 != key);
            assert(rr == t.take(p - 1) + seq![(key, v)] + t.skip(p - 1));
            assert(r =~= s.take(p) + seq![(key, v)] + s.skip(p));
        }
    }
}

/// On a sorted sequence whose first `p` keys differ from `key` and whose `p`th
/// entry has key `key`, removal removes exactly position `p`.
proof fn lemma_remove_at_position<T>(s: Seq<(u32, T)>, key: u32, p: int)
    requires
        keys_sorted(s),
        0 <= p < s.len(),
        forall|j: int| 0 <= j < p ==> (#[trigger] s[j].0) != key,
        s[p].0 == key,
    ensures
        entries_remove(s, key) == s.take(p) + s.skip(p + 1),
    decreases s.len(),
{
    if p == 0 {
        assert(entries_remove(s, key) =~= s.take(0) + s.skip(1));
    } else {
        let t = s.drop_first();
        assert(keys_sorted(t));
        assert(forall|j: int| 0 <= j < p - 1 ==> (#[trigger] t[j].0) == s[j + 1].0);
        assert(t[p - 1].0 == key);
        lemma_remove_at_position(t, key, p - 1);
        let r = entries_remove(s, key);
        assert(r == seq![s[0]] + entries_remove(t, key));
        assert(r =~= s.take(p) + s.skip(p + 1));
    }
}

} // verus!

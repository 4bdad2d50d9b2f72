//! A keyed table of values, indexed by agent or task identifiers.
//!
//! Entries are kept in a vector with at most one entry per key, so that the
//! table can be walked in a fixed order while its model is a finite map.

use vstd::prelude::*;

verus! {

/// No two entries share a key.
pub open spec fn keys_distinct<V>(p: Seq<(Seq<char>, V)>) -> bool {
    forall|i: int, j: int| 0 <= i < p.len() && 0 <= j < p.len() && i != j ==> p[i].0 != p[j].0
}

/// The map that a list of entries stands for (a later entry wins).
pub open spec fn map_of<V>(p: Seq<(Seq<char>, V)>) -> Map<Seq<char>, V>
    decreases p.len(),
{
    if p.len() == 0 {
        Map::empty()
    } else {
        map_of(p.drop_last()).insert(p.last().0, p.last().1)
    }
}

/// Number of entries whose value is `v`.
pub open spec fn count_eq<V>(p: Seq<(Seq<char>, V)>, v: V) -> nat
    decreases p.len(),
{
    if p.len() == 0 {
        0
    } else {
        count_eq(p.drop_last(), v) + if p.last().1 == v { 1nat } else { 0nat }
    }
}

/// The keys that a map sends to `v`.
pub open spec fn keys_with<V>(m: Map<Seq<char>, V>, v: V) -> Set<Seq<char>> {
    m.dom().filter(|k: Seq<char>| m[k] == v)
}

/// Number of keys that a map sends to `v`.
pub open spec fn tally<V>(m: Map<Seq<char>, V>, v: V) -> nat {
    keys_with(m, v).len()
}

/// With distinct keys, each entry is found in the map, the map holds no other
/// key, and it has as many keys as there are entries.
pub proof fn lemma_map_of<V>(p: Seq<(Seq<char>, V)>)
    requires
        keys_distinct(p),
    ensures
        forall|i: int|
            0 <= i < p.len() ==> #[trigger] map_of(p).contains_key(p[i].0) && map_of(p)[p[i].0]
                == p[i].1,
        forall|k: Seq<char>|
            #[trigger] map_of(p).contains_key(k) ==> exists|i: int| 0 <= i < p.len() && p[i].0 == k,
        map_of(p).dom().finite(),
        map_of(p).dom().len() == p.len(),
    decreases p.len(),
{
    if p.len() > 0 {
        let q = p.drop_last();
        assert(keys_distinct(q));
        lemma_map_of(q);
        let last = p.last();
        assert(!map_of(q).contains_key(last.0)) by {
            if map_of(q).contains_key(last.0) {
                let i = choose|i: int| 0 <= i < q.len() && q[i].0 == last.0;
                assert(p[i].0 == p[p.len() - 1].0);
            }
        }
        assert forall|i: int| 0 <= i < p.len() implies #[trigger] map_of(p).contains_key(p[i].0)
            && map_of(p)[p[i].0] == p[i].1 by {
            if i < p.len() - 1 {
                assert(q[i] == p[i]);
                assert(map_of(q).contains_key(q[i].0));
            }
        }
        assert forall|k: Seq<char>| #[trigger] map_of(p).contains_key(k) implies exists|i: int|
            0 <= i < p.len() && p[i].0 == k by {
            if k != last.0 {
                assert(map_of(q).contains_key(k));
                let i = choose|i: int| 0 <= i < q.len() && q[i].0 == k;
                assert(p[i].0 == k);
            } else {
                assert(p[p.len() - 1].0 == k);
            }
        }
    }
}

/// With distinct keys, counting entries with value `v` counts the keys that
/// the map sends to `v`.
pub proof fn lemma_count_eq<V>(p: Seq<(Seq<char>, V)>, v: V)
    requires
        keys_distinct(p),
    ensures
        count_eq(p, v) == tally(map_of(p), v),
        keys_with(map_of(p), v).finite(),
    decreases p.len(),
{
    if p.len() == 0 {
        assert(keys_with(map_of(p), v) =~= Set::empty());
    } else {
        let q = p.drop_last();
        assert(keys_distinct(q));
        lemma_count_eq(q, v);
        lemma_map_of(q);
        let last = p.last();
        assert(!map_of(q).contains_key(last.0)) by {
            if map_of(q).contains_key(last.0) {
                let i = choose|i: int| 0 <= i < q.len() && q[i].0 == last.0;
                assert(p[i].0 == p[p.len() - 1].0);
            }
        }
        let before = keys_with(map_of(q), v);
        if last.1 == v {
            assert(keys_with(map_of(p), v) =~= before.insert(last.0));
        } else {
            assert(keys_with(map_of(p), v) =~= before);
        }
    }
}

/// The map of a list of entries has finitely many keys.
pub proof fn lemma_map_of_finite<V>(p: Seq<(Seq<char>, V)>)
    ensures
        map_of(p).dom().finite(),
    decreases p.len(),
{
    if p.len() > 0 {
        lemma_map_of_finite(p.drop_last());
    }
}

/// Counting one more entry adds one to the count of its own value only.
pub proof fn lemma_count_eq_push<V>(p: Seq<(Seq<char>, V)>, e: (Seq<char>, V), v: V)
    ensures
        count_eq(p.push(e), v) == count_eq(p, v) + if e.1 == v { 1nat } else { 0nat },
{
    assert(p.push(e).drop_last() =~= p);
}

/// A count never exceeds the number of entries.
pub proof fn lemma_count_eq_bounded<V>(p: Seq<(Seq<char>, V)>, v: V)
    ensures
        count_eq(p, v) <= p.len(),
    decreases p.len(),
{
    if p.len() > 0 {
        lemma_count_eq_bounded(p.drop_last(), v);
    }
}

/// Replacing the value of an entry in place replaces it in the map.
pub proof fn lemma_map_of_update<V>(p: Seq<(Seq<char>, V)>, i: int, kv: (Seq<char>, V))
    requires
        keys_distinct(p),
        0 <= i < p.len(),
        kv.0 == p[i].0,
    ensures
        keys_distinct(p.update(i, kv)),
        map_of(p.update(i, kv)) == map_of(p).insert(kv.0, kv.1),
{
    let q = p.update(i, kv);
    assert(keys_distinct(q)) by {
        assert forall|a: int, b: int| 0 <= a < q.len() && 0 <= b < q.len() && a != b implies q[a].0
            != q[b].0 by {
            assert(q[a].0 == p[a].0);
            assert(q[b].0 == p[b].0);
        }
    }
    lemma_map_of(p);
    lemma_map_of(q);
    let m = map_of(p).insert(kv.0, kv.1);
    assert forall|x: Seq<char>| map_of(q).contains_key(x) <==> m.contains_key(x) by {
        if map_of(q).contains_key(x) {
            let j = choose|j: int| 0 <= j < q.len() && q[j].0 == x;
            assert(p[j].0 == x);
            assert(map_of(p).contains_key(p[j].0));
        }
        if m.contains_key(x) && x != kv.0 {
            let j = choose|j: int| 0 <= j < p.len() && p[j].0 == x;
            assert(q[j].0 == x);
            assert(map_of(q).contains_key(q[j].0));
        }
        if x == kv.0 {
            assert(map_of(q).contains_key(q[i].0));
        }
    }
    assert forall|x: Seq<char>| #[trigger] map_of(q).contains_key(x) implies map_of(q)[x] == m[x] by {
        let j = choose|j: int| 0 <= j < q.len() && q[j].0 == x;
        assert(map_of(q).contains_key(q[j].0));
        if j != i {
            assert(map_of(p).contains_key(p[j].0));
        }
    }
    assert(map_of(q) =~= m);
}

/// Removing an entry removes its key from the map.
pub proof fn lemma_map_of_remove<V>(p: Seq<(Seq<char>, V)>, i: int)
    requires
        keys_distinct(p),
        0 <= i < p.len(),
    ensures
        keys_distinct(p.remove(i)),
        map_of(p.remove(i)) == map_of(p).remove(p[i].0),
{
    let q = p.remove(i);
    assert(keys_distinct(q)) by {
        assert forall|a: int, b: int| 0 <= a < q.len() && 0 <= b < q.len() && a != b implies q[a].0
            != q[b].0 by {
            let a2 = if a < i { a } else { a + 1 };
            let b2 = if b < i { b } else { b + 1 };
            assert(q[a] == p[a2]);
            assert(q[b] == p[b2]);
        }
    }
    lemma_map_of(p);
    lemma_map_of(q);
    let m = map_of(p).remove(p[i].0);
    assert forall|x: Seq<char>| map_of(q).contains_key(x) <==> m.contains_key(x) by {
        if map_of(q).contains_key(x) {
            let j = choose|j: int| 0 <= j < q.len() && q[j].0 == x;
            let j2 = if j < i { j } else { j + 1 };
            assert(q[j] == p[j2]);
            assert(map_of(p).contains_key(p[j2].0));
        }
        if m.contains_key(x) {
            let j = choose|j: int| 0 <= j < p.len() && p[j].0 == x;
            assert(j != i);
            let j2 = if j < i { j } else { j - 1 };
            assert(q[j2] == p[j]);
            assert(map_of(q).contains_key(q[j2].0));
        }
    }
    assert forall|x: Seq<char>| #[trigger] map_of(q).contains_key(x) implies map_of(q)[x] == m[x] by {
        let j = choose|j: int| 0 <= j < q.len() && q[j].0 == x;
        let j2 = if j < i { j } else { j + 1 };
        assert(q[j] == p[j2]);
        assert(map_of(q).contains_key(q[j].0));
        assert(map_of(p).contains_key(p[j2].0));
    }
    assert(map_of(q) =~= m);
}

/// A table from identifiers to values, with at most one value per identifier.
#[derive(Debug)]
pub struct Registry<V> {
    entries: Vec<(String, V)>,
}

impl<V> Registry<V> {
    /// The entries, in the order in which their keys were first inserted.
    pub closed spec fn pairs(&self) -> Seq<(Seq<char>, V)> {
        self.entries@.map_values(|e: (String, V)| (e.0@, e.1))
    }

    /// The table as a map from identifiers to values.
    pub open spec fn view(&self) -> Map<Seq<char>, V> {
        map_of(self.pairs())
    }

    #[verifier::type_invariant]
    pub(crate) open spec fn well_formed(&self) -> bool {
        keys_distinct(self.pairs())
    }

    pub fn new() -> (r: Self)
        ensures
            r.pairs() == Seq::<(Seq<char>, V)>::empty(),
            r@ == Map::<Seq<char>, V>::empty(),
    {
        let r = Registry { entries: Vec::new() };
        assert(r.pairs() =~= Seq::<(Seq<char>, V)>::empty());
        r
    }

    /// Number of entries.
    pub fn len(&self) -> (r: usize)
        ensures
            r == self.pairs().len(),
            r == self@.dom().len(),
    {
        proof {
            use_type_invariant(self);
            lemma_map_of(self.pairs());
        }
        self.entries.len()
    }

    /// The key of the entry at position `i`.
    pub fn key_at(&self, i: usize) -> (r: &String)
        requires
            i < self.pairs().len(),
        ensures
            r@ == self.pairs()[i as int].0,
    {
        &self.entries[i].0
    }

    /// The value of the entry at position `i`.
    pub fn value_at(&self, i: usize) -> (r: &V)
        requires
            i < self.pairs().len(),
        ensures
            *r == self.pairs()[i as int].1,
    {
        &self.entries[i].1
    }

    /// Moves the entries out, leaving the table empty.
    fn take_entries(&mut self) -> (r: Vec<(String, V)>)
        ensures
            r@ == old(self).entries@,
            final(self).entries@ == Seq::<(String, V)>::empty(),
    {
        let mut entries = Vec::new();
        std::mem::swap(&mut entries, &mut self.entries);
        entries
    }

    /// Position of the entry with key `key`, if any.
    fn position(&self, key: &str) -> (r: Option<usize>)
        ensures
            match r {
                Some(i) => i < self.pairs().len() && self.pairs()[i as int].0 == key@,
                None => forall|i: int| 0 <= i < self.pairs().len() ==> self.pairs()[i].0 != key@,
            },
    {
        let k = key.to_owned();
        let n = self.entries.len();
        for i in 0..n
            invariant
                n == self.pairs().len(),
                k@ == key@,
                forall|j: int| 0 <= j < i ==> self.pairs()[j].0 != key@,
        {
            if self.entries[i].0 == k {
                return Some(i);
            }
        }
        None
    }

    /// The value stored under `key`, if any.
    pub fn get(&self, key: &str) -> (r: Option<&V>)
        ensures
            match r {
                Some(v) => self@.contains_key(key@) && *v == self@[key@],
                None => !self@.contains_key(key@),
            },
    {
        proof {
            use_type_invariant(self);
            lemma_map_of(self.pairs());
        }
        match self.position(key) {
            Some(i) => {
                assert(self.pairs()[i as int].1 == self.entries@[i as int].1);
                assert(self@.contains_key(self.pairs()[i as int].0));
                Some(&self.entries[i].1)
            },
            None => None,
        }
    }

    /// Stores `v` under `key`, replacing any value stored there.
    pub fn insert(&mut self, key: String, v: V)
        ensures
            final(self)@ == old(self)@.insert(key@, v),
    {
        proof {
            use_type_invariant(&*self);
            lemma_map_of(self.pairs());
        }
        let ghost p = self.pairs();
        match self.position(key.as_str()) {
            Some(i) => {
                let ghost k = key@;
                let mut entries = self.take_entries();
                entries.set(i, (key, v));
                proof {
                    assert(entries@.map_values(|e: (String, V)| (e.0@, e.1)) =~= p.update(
                        i as int,
                        (k, v),
                    ));
                    lemma_map_of_update(p, i as int, (k, v));
                }
                self.entries = entries;
            },
            None => {
                let ghost k = key@;
                let mut entries = self.take_entries();
                entries.push((key, v));
                proof {
                    assert(entries@.map_values(|e: (String, V)| (e.0@, e.1)) =~= p.push((k, v)));
                    assert(p.push((k, v)).drop_last() =~= p);
                    lemma_map_of(p);
                    assert(keys_distinct(p.push((k, v))));
                }
                self.entries = entries;
                proof {
                    assert(self.pairs() =~= p.push((k, v)));
                    assert(self.pairs().drop_last() =~= p);
                }
            },
        }
    }

    /// Removes the entry under `key`, handing back its value if there was one.
    pub fn remove(&mut self, key: &str) -> (r: Option<V>)
        ensures
            final(self)@ == old(self)@.remove(key@),
            r == (if old(self)@.contains_key(key@) {
                Some(old(self)@[key@])
            } else {
                None::<V>
            }),
    {
        proof {
            use_type_invariant(&*self);
            lemma_map_of(self.pairs());
        }
        let ghost p = self.pairs();
        match self.position(key) {
            Some(i) => {
                let mut entries = self.take_entries();
                let e = entries.remove(i);
                proof {
                    assert(entries@.map_values(|e: (String, V)| (e.0@, e.1)) =~= p.remove(i as int));
                }
                proof {
                    lemma_map_of_remove(p, i as int);
                }
                self.entries = entries;
                Some(e.1)
            },
            None => {
                proof {
                    assert(old(self)@.remove(key@) =~= old(self)@);
                }
                None
            },
        }
    }

    /// Removes every entry.
    pub fn clear(&mut self)
        ensures
            final(self)@ == Map::<Seq<char>, V>::empty(),
    {
        self.entries = Vec::new();
        proof {
            assert(self.pairs() =~= Seq::<(Seq<char>, V)>::empty());
        }
    }
}

impl<V: Clone> Clone for Registry<V> {
    /// A copy with the same keys, in the same order, each value cloned.
    fn clone(&self) -> (r: Self)
        ensures
            r.pairs().len() == self.pairs().len(),
            forall|i: int|
                0 <= i < self.pairs().len() ==> r.pairs()[i].0 == self.pairs()[i].0 && cloned::<V>(
                    self.pairs()[i].1,
                    #[trigger] r.pairs()[i].1,
                ),
    {
        proof {
            use_type_invariant(self);
        }
        let n = self.entries.len();
        let mut entries: Vec<(String, V)> = Vec::new();
        let mut i: usize = 0;
        while i < n
            invariant
                n == self.pairs().len(),
                i <= n,
                entries@.len() == i,
                forall|j: int| 0 <= j < i ==> (#[trigger] entries@[j]).0@ == self.pairs()[j].0,
                forall|j: int| 0 <= j < i ==> cloned::<V>(self.pairs()[j].1, (#[trigger] entries@[j]).1),
            decreases n - i,
        {
            let key = self.entries[i].0.clone();
            let value = self.entries[i].1.clone();
            proof {
                assert(self.pairs()[i as int] == (self.entries@[i as int].0@, self.entries@[i as int].1));
                assert(vstd::pervasive::strictly_cloned::<V>(self.entries@[i as int].1, value));
                assert(key@ == self.pairs()[i as int].0);
            }
            let ghost before = entries@;
            entries.push((key, value));
            proof {
                assert forall|j: int| 0 <= j < i + 1 implies (#[trigger] entries@[j]).0@ == self.pairs()[j].0
                    && cloned::<V>(self.pairs()[j].1, entries@[j].1) by {
                    if j < i {
                        assert(entries@[j] == before[j]);
                    }
                }
            }
            i = i + 1;
        }
        let r = Registry { entries };
        proof {
            assert forall|i: int| 0 <= i < self.pairs().len() implies r.pairs()[i].0 == self.pairs()[i].0
                && cloned::<V>(self.pairs()[i].1, #[trigger] r.pairs()[i].1) by {
                assert(r.pairs()[i] == (r.entries@[i].0@, r.entries@[i].1));
            }
        }
        r
    }
}

} // verus!

//! A finite map from keys to values held as a vector of entries whose keys
//! are distinct, viewed as a `Map` from the keys' views to the values' views.

use vstd::prelude::*;

verus! {

/// A value that can be copied into one with the same view.
pub trait DeepCopy: View + Sized {
    fn deep_copy(&self) -> (r: Self)
        ensures
            r@ == self@,
    ;
}

/// A key of a `Table`: copyable, and compared by its view.
pub trait TableKey: DeepCopy {
    fn same(&self, other: &Self) -> (r: bool)
        ensures
            r == (self@ == other@),
    ;
}

impl DeepCopy for String {
    fn deep_copy(&self) -> (r: String) {
        self.clone()
    }
}

impl TableKey for String {
    fn same(&self, other: &String) -> (r: bool) {
        *self == *other
    }
}

impl<A: DeepCopy, B: DeepCopy> DeepCopy for (A, B) {
    fn deep_copy(&self) -> (r: (A, B)) {
        (self.0.deep_copy(), self.1.deep_copy())
    }
}

impl<A: TableKey, B: TableKey> TableKey for (A, B) {
    fn same(&self, other: &(A, B)) -> (r: bool) {
        self.0.same(&other.0) && self.1.same(&other.1)
    }
}

pub struct Table<K: TableKey, V: View> {
    entries: Vec<(K, V)>,
    contents: Ghost<Map<K::V, V::V>>,
}

impl<K: TableKey, V: View> View for Table<K, V> {
    type V = Map<K::V, V::V>;

    closed spec fn view(&self) -> Map<K::V, V::V> {
        self.contents@
    }
}

impl<K: TableKey, V: View> Table<K, V> {
    /// The entries have distinct keys, and hold exactly what the map holds.
    closed spec fn parts_ok(entries: Seq<(K, V)>, m: Map<K::V, V::V>) -> bool {
        &&& m.dom().finite()
        &&& forall|i: int, j: int|
            0 <= i < j < entries.len() ==> #[trigger] entries[i].0@ != #[trigger] entries[j].0@
        &&& forall|i: int|
            0 <= i < entries.len() ==> m.contains_key(#[trigger] entries[i].0@) && m[entries[i].0@]
                == entries[i].1@
        &&& forall|k: K::V| #[trigger]
            m.contains_key(k) ==> exists|i: int| 0 <= i < entries.len() && #[trigger] entries[i].0@ == k
    }

    #[verifier::type_invariant]
    closed spec fn inv(self) -> bool {
        Self::parts_ok(self.entries@, self.contents@)
    }

    /// The views of the keys, in the order the entries are held.
    pub closed spec fn key_seq(&self) -> Seq<K::V> {
        self.entries@.map_values(|e: (K, V)| e.0@)
    }

    /// The views of the values, in the order the entries are held.
    pub closed spec fn value_seq(&self) -> Seq<V::V> {
        self.entries@.map_values(|e: (K, V)| e.1@)
    }

    pub fn new() -> (t: Self)
        ensures
            t@ == Map::<K::V, V::V>::empty(),
    {
        Table { entries: Vec::new(), contents: Ghost(Map::empty()) }
    }

    /// The number of entries, with what the entries say of the map.
    pub fn len(&self) -> (n: usize)
        ensures
            n == self.key_seq().len(),
            n == self.value_seq().len(),
            forall|i: int, j: int|
                0 <= i < j < n ==> #[trigger] self.key_seq()[i] != #[trigger] self.key_seq()[j],
            forall|i: int|
                0 <= i < n ==> self@.contains_key(#[trigger] self.key_seq()[i]) && self@[self.key_seq()[i]]
                    == self.value_seq()[i],
            forall|k: K::V| #[trigger]
                self@.contains_key(k) ==> exists|i: int| 0 <= i < n && #[trigger] self.key_seq()[i] == k,
            self@.dom().finite(),
    {
        proof {
            use_type_invariant(self);
            assert forall|k: K::V| #[trigger] self@.contains_key(k) implies exists|i: int|
                0 <= i < self.entries@.len() && #[trigger] self.key_seq()[i] == k by {
                let i = choose|i: int| 0 <= i < self.entries@.len() && #[trigger] self.entries@[i].0@ == k;
                assert(self.key_seq()[i] == k);
            }
        }
        self.entries.len()
    }

    pub fn key_at(&self, i: usize) -> (k: &K)
        requires
            i < self.key_seq().len(),
        ensures
            k@ == self.key_seq()[i as int],
    {
        &self.entries[i].0
    }

    pub fn value_at(&self, i: usize) -> (v: &V)
        requires
            i < self.value_seq().len(),
        ensures
            v@ == self.value_seq()[i as int],
    {
        &self.entries[i].1
    }

    fn index_of(&self, k: &K) -> (r: Option<usize>)
        ensures
            match r {
                Some(i) => i < self.entries@.len() && self.entries@[i as int].0@ == k@
                    && self@.contains_key(k@),
                None => !self@.contains_key(k@),
            },
    {
        proof {
            use_type_invariant(self);
        }
        let n = self.entries.len();
        let mut i: usize = 0;
        while i < n
            invariant
                n == self.entries@.len(),
                i <= n,
                forall|j: int| 0 <= j < i ==> self.entries@[j].0@ != k@,
            decreases n - i,
        {
            if self.entries[i].0.same(k) {
                proof {
                    use_type_invariant(self);
                    assert(self.contents@.contains_key(self.entries@[i as int].0@));
                }
                return Some(i);
            }
            i = i + 1;
        }
        None
    }

    pub fn get(&self, k: &K) -> (r: Option<&V>)
        ensures
            match r {
                Some(v) => self@.contains_key(k@) && v@ == self@[k@],
                None => !self@.contains_key(k@),
            },
    {
        proof {
            use_type_invariant(self);
        }
        match self.index_of(k) {
            Some(i) => Some(&self.entries[i].1),
            None => None,
        }
    }

    pub fn contains(&self, k: &K) -> (r: bool)
        ensures
            r == self@.contains_key(k@),
    {
        self.index_of(k).is_some()
    }

    /// Moves the whole table out, leaving an empty one.
    fn take_all(&mut self) -> (t: Self)
        ensures
            t@ == old(self)@,
            final(self)@ == Map::<K::V, V::V>::empty(),
    {
        let mut t = Table::new();
        std::mem::swap(&mut t, self);
        t
    }

    pub fn insert(&mut self, k: K, v: V)
        ensures
            final(self)@ == old(self)@.insert(k@, v@),
    {
        let t = self.take_all();
        proof {
            use_type_invariant(&t);
        }
        let pos = t.index_of(&k);
        let ghost m = t.contents@.insert(k@, v@);
        let Table { mut entries, contents } = t;
        let ghost old_entries = entries@;
        match pos {
            Some(i) => {
                entries.set(i, (k, v));
            },
            None => {
                entries.push((k, v));
            },
        }
        proof {
            assert(m.dom().finite());
            assert forall|a: int, b: int| 0 <= a < b < entries@.len() implies #[trigger] entries@[a].0@
                != #[trigger] entries@[b].0@ by {
                match pos {
                    Some(i) => {
                        assert(entries@[a].0@ == old_entries[a].0@);
                        assert(entries@[b].0@ == old_entries[b].0@);
                    },
                    None => {
                        if b == old_entries.len() {
                            assert(contents@.contains_key(old_entries[a].0@));
                        } else {
                            assert(entries@[a] == old_entries[a]);
                            assert(entries@[b] == old_entries[b]);
                        }
                    },
                }
            }
            assert forall|a: int| 0 <= a < entries@.len() implies m.contains_key(
                #[trigger] entries@[a].0@,
            ) && m[entries@[a].0@] == entries@[a].1@ by {
                match pos {
                    Some(i) => {
                        if a != i {
                            assert(entries@[a] == old_entries[a]);
                            assert(old_entries[a].0@ != old_entries[i as int].0@);
                        }
                    },
                    None => {
                        if a < old_entries.len() {
                            assert(entries@[a] == old_entries[a]);
                            assert(contents@.contains_key(old_entries[a].0@));
                        }
                    },
                }
            }
            assert forall|q: K::V| #[trigger] m.contains_key(q) implies exists|j: int|
                0 <= j < entries@.len() && #[trigger] entries@[j].0@ == q by {
                if q != k@ {
                    assert(contents@.contains_key(q));
                    let j = choose|j: int| 0 <= j < old_entries.len() && #[trigger] old_entries[j].0@ == q;
                    assert(entries@[j] == old_entries[j]);
                } else {
                    match pos {
                        Some(i) => assert(entries@[i as int].0@ == q),
                        None => assert(entries@[old_entries.len() as int].0@ == q),
                    }
                }
            }
        }
        assert(Self::parts_ok(entries@, m));
        *self = Table { entries, contents: Ghost(m) };
    }

    /// Removes the entry of `k`, handing back its value.
    pub fn take(&mut self, k: &K) -> (r: Option<V>)
        ensures
            final(self)@ == old(self)@.remove(k@),
            match r {
                Some(v) => old(self)@.contains_key(k@) && v@ == old(self)@[k@],
                None => !old(self)@.contains_key(k@),
            },
    {
        proof {
            use_type_invariant(&*self);
        }
        let t = self.take_all();
        proof {
            use_type_invariant(&t);
        }
        let pos = t.index_of(k);
        match pos {
            None => {
                assert(t@.remove(k@) =~= t@);
                *self = t;
                None
            },
            Some(i) => {
                let ghost m = t.contents@.remove(k@);
                let Table { mut entries, contents } = t;
                let ghost old_entries = entries@;
                let (_, v) = entries.remove(i);
                proof {
                    assert(contents@[k@] == v@);
                    assert forall|a: int, b: int| 0 <= a < b < entries@.len() implies #[trigger] entries@[a].0@
                        != #[trigger] entries@[b].0@ by {
                        if a < i {
                            assert(entries@[a] == old_entries[a]);
                        } else {
                            assert(entries@[a] == old_entries[a + 1]);
                        }
                        if b < i {
                            assert(entries@[b] == old_entries[b]);
                        } else {
                            assert(entries@[b] == old_entries[b + 1]);
                        }
                    }
                    assert forall|a: int| 0 <= a < entries@.len() implies m.contains_key(
                        #[trigger] entries@[a].0@,
                    ) && m[entries@[a].0@] == entries@[a].1@ by {
                        if a < i {
                            assert(entries@[a] == old_entries[a]);
                            assert(old_entries[a].0@ != old_entries[i as int].0@);
                        } else {
                            assert(entries@[a] == old_entries[a + 1]);
                            assert(old_entries[a + 1].0@ != old_entries[i as int].0@);
                        }
                    }
                    assert forall|q: K::V| #[trigger] m.contains_key(q) implies exists|j: int|
                        0 <= j < entries@.len() && #[trigger] entries@[j].0@ == q by {
                        let j = choose|j: int| 0 <= j < old_entries.len() && #[trigger] old_entries[j].0@ == q;
                        assert(j != i);
                        if j < i {
                            assert(entries@[j] == old_entries[j]);
                        } else {
                            assert(entries@[j - 1] == old_entries[j]);
                        }
                    }
                    assert(Self::parts_ok(entries@, m));
                }
                *self = Table { entries, contents: Ghost(m) };
                Some(v)
            },
        }
    }

    /// Removes the entry of `k`, if there is one.
    pub fn remove(&mut self, k: &K)
        ensures
            final(self)@ == old(self)@.remove(k@),
    {
        let _ = self.take(k);
    }
}

impl<K: TableKey, V: DeepCopy> DeepCopy for Table<K, V> {
    fn deep_copy(&self) -> (r: Self) {
        proof {
            use_type_invariant(self);
        }
        let n = self.entries.len();
        let mut entries: Vec<(K, V)> = Vec::new();
        let mut i: usize = 0;
        while i < n
            invariant
                n == self.entries@.len(),
                i <= n,
                entries@.len() == i,
                forall|j: int|
                    0 <= j < i ==> (#[trigger] entries@[j]).0@ == self.entries@[j].0@ && entries@[j].1@
                        == self.entries@[j].1@,
            decreases n - i,
        {
            let e = &self.entries[i];
            entries.push((e.0.deep_copy(), e.1.deep_copy()));
            i = i + 1;
        }
        proof {
            let old_entries = self.entries@;
            let m = self.contents@;
            assert forall|a: int, b: int| 0 <= a < b < entries@.len() implies #[trigger] entries@[a].0@
                != #[trigger] entries@[b].0@ by {
                assert(old_entries[a].0@ != old_entries[b].0@);
            }
            assert forall|q: K::V| #[trigger] m.contains_key(q) implies exists|j: int|
                0 <= j < entries@.len() && #[trigger] entries@[j].0@ == q by {
                let j = choose|j: int| 0 <= j < old_entries.len() && #[trigger] old_entries[j].0@ == q;
                assert(entries@[j].0@ == q);
            }
            assert(Self::parts_ok(entries@, m));
        }
        Table { entries, contents: Ghost(self.contents@) }
    }
}

} // verus!

//! Small insertion-ordered maps, keyed by agent identity or by name.
//!
//! Both keep their entries in a vector. A lookup takes the first entry with
//! the key; an insertion overwrites that entry, or appends a new one.

use crate::term::AgentId;
use vstd::prelude::*;

verus! {

/// `i` is the first position of `k` in `keys`.
pub open spec fn is_first<K>(keys: Seq<K>, k: K, i: int) -> bool {
    &&& 0 <= i < keys.len()
    &&& keys[i] == k
    &&& forall|j: int| 0 <= j < i ==> keys[j] != k
}

/// The first position of `k` in `keys`; meaningful where `keys` contains `k`.
pub open spec fn first_index<K>(keys: Seq<K>, k: K) -> int {
    choose|i: int| is_first(keys, k, i)
}

/// A key that occurs has a first position.
pub proof fn lemma_first_index<K>(keys: Seq<K>, k: K)
    requires
        keys.contains(k),
    ensures
        is_first(keys, k, first_index(keys, k)),
{
    keys.index_of_first_ensures(k);
    let i = keys.index_of_first(k).unwrap();
    assert(is_first(keys, k, i));
}

/// The first position is unique.
pub proof fn lemma_first_unique<K>(keys: Seq<K>, k: K, i: int)
    requires
        is_first(keys, k, i),
    ensures
        first_index(keys, k) == i,
        keys.contains(k),
{
    let j = first_index(keys, k);
    assert(is_first(keys, k, j));
    if j < i {
        assert(keys[j] != k);
    } else if i < j {
        assert(keys[i] != k);
    }
}

/// The map that a sequence of keys and a sequence of values stand for, where
/// the first entry of a key is the one that counts.
pub open spec fn first_match_map<K, V>(keys: Seq<K>, vals: Seq<V>) -> Map<K, V> {
    Map::new(|k: K| keys.contains(k), |k: K| vals[first_index(keys, k)])
}

/// Overwriting the value at the first entry of `k` is an insertion.
pub proof fn lemma_overwrite<K, V>(keys: Seq<K>, vals: Seq<V>, k: K, v: V, i: int)
    requires
        keys.len() == vals.len(),
        is_first(keys, k, i),
    ensures
        first_match_map(keys, vals.update(i, v)) == first_match_map(keys, vals).insert(k, v),
{
    lemma_first_unique(keys, k, i);
    let m0 = first_match_map(keys, vals);
    let m1 = first_match_map(keys, vals.update(i, v));
    assert forall|x: K| m0.insert(k, v).contains_key(x) implies m1.contains_key(x) && m1[x]
        == m0.insert(k, v)[x] by {
        if x != k {
            lemma_first_index(keys, x);
        }
    }
    assert(m1 =~= m0.insert(k, v));
}

/// Appending an entry for a key that does not occur is an insertion.
pub proof fn lemma_append<K, V>(keys: Seq<K>, vals: Seq<V>, k: K, v: V)
    requires
        keys.len() == vals.len(),
        !keys.contains(k),
    ensures
        first_match_map(keys.push(k), vals.push(v)) == first_match_map(keys, vals).insert(k, v),
{
    let m0 = first_match_map(keys, vals);
    let m1 = first_match_map(keys.push(k), vals.push(v));
    assert forall|x: K| #[trigger] m1.dom().contains(x) implies m0.insert(k, v).dom().contains(
        x,
    ) by {
        let j = choose|j: int| 0 <= j < keys.push(k).len() && keys.push(k)[j] == x;
        if j < keys.len() {
            assert(keys[j] == x);
        }
    }
    assert forall|x: K| #[trigger] m0.insert(k, v).dom().contains(x) implies m1.dom().contains(x)
        && m1[x] == m0.insert(k, v)[x] by {
        if x == k {
            assert(keys.push(k)[keys.len() as int] == k);
            assert forall|j: int| 0 <= j < keys.len() implies keys.push(k)[j] != k by {
                assert(keys[j] != k);
            }
            lemma_first_unique(keys.push(k), k, keys.len() as int);
        } else {
            lemma_first_index(keys, x);
            let j = first_index(keys, x);
            assert(keys.push(k)[j] == x);
            assert forall|l: int| 0 <= l < j implies keys.push(k)[l] != x by {
                assert(keys[l] != x);
            }
            lemma_first_unique(keys.push(k), x, j);
        }
    }
    assert(m1 =~= m0.insert(k, v));
}

/// Where among the first `n` elements of a sequence an element stands.
pub proof fn lemma_place<T>(s: Seq<T>, n: int, y: T) -> (k: int)
    requires
        0 <= n <= s.len(),
        s.take(n).contains(y),
    ensures
        0 <= k < n,
        s[k] == y,
{
    let t = s.take(n);
    let k = choose|k: int| 0 <= k < t.len() && t[k] == y;
    assert(t[k] == s[k]);
    k
}

/// The keys of a sequence of entries, in order.
pub open spec fn keys_of<K, V>(entries: Seq<(K, V)>) -> Seq<K> {
    Seq::new(entries.len(), |i: int| entries[i].0)
}

/// The values of a sequence of entries, in order.
pub open spec fn vals_of<K, V>(entries: Seq<(K, V)>) -> Seq<V> {
    Seq::new(entries.len(), |i: int| entries[i].1)
}

/// The map that a sequence of entries stands for.
pub open spec fn as_map<K, V>(entries: Seq<(K, V)>) -> Map<K, V> {
    first_match_map(keys_of(entries), vals_of(entries))
}

/// The entries after `v` was stored under `k`: in place of the first entry
/// of `k`, or at the end where `k` has none.
pub open spec fn put<K, V>(entries: Seq<(K, V)>, k: K, v: V) -> Seq<(K, V)> {
    if keys_of(entries).contains(k) {
        entries.update(first_index(keys_of(entries), k), (k, v))
    } else {
        entries.push((k, v))
    }
}

/// Storing a value under a key is an insertion into the map.
pub proof fn lemma_put<K, V>(entries: Seq<(K, V)>, k: K, v: V)
    ensures
        as_map(put(entries, k, v)) == as_map(entries).insert(k, v),
{
    let keys = keys_of(entries);
    let vals = vals_of(entries);
    if keys.contains(k) {
        lemma_first_index(keys, k);
        let i = first_index(keys, k);
        lemma_overwrite(keys, vals, k, v, i);
        assert(keys_of(put(entries, k, v)) =~= keys);
        assert(vals_of(put(entries, k, v)) =~= vals.update(i, v));
    } else {
        lemma_append(keys, vals, k, v);
        assert(keys_of(put(entries, k, v)) =~= keys.push(k));
        assert(vals_of(put(entries, k, v)) =~= vals.push(v));
    }
}

/// The entries after the first `n` of `more` were stored, in order.
pub open spec fn put_all<K, V>(entries: Seq<(K, V)>, more: Seq<(K, V)>, n: nat) -> Seq<(K, V)>
    decreases n,
{
    if n == 0 || n > more.len() {
        entries
    } else {
        put(put_all(entries, more, (n - 1) as nat), more[n - 1].0, more[n - 1].1)
    }
}

/// No key stands in two entries.
pub open spec fn distinct<K, V>(entries: Seq<(K, V)>) -> bool {
    forall|i: int, j: int|
        0 <= i < j < entries.len() ==> (#[trigger] entries[i]).0 != (#[trigger] entries[j]).0
}

/// Storing a value under a key leaves no key in two entries.
pub proof fn lemma_put_distinct<K, V>(entries: Seq<(K, V)>, k: K, v: V)
    requires
        distinct(entries),
    ensures
        distinct(put(entries, k, v)),
{
    let after = put(entries, k, v);
    if keys_of(entries).contains(k) {
        lemma_first_index(keys_of(entries), k);
        let at = first_index(keys_of(entries), k);
        assert forall|i: int, j: int| 0 <= i < j < after.len() implies (#[trigger] after[i]).0 != (
        #[trigger] after[j]).0 by {
            assert(after[i].0 == entries[i].0);
            assert(after[j].0 == entries[j].0);
        }
    } else {
        assert forall|i: int, j: int| 0 <= i < j < after.len() implies (#[trigger] after[i]).0 != (
        #[trigger] after[j]).0 by {
            if j == entries.len() {
                assert(keys_of(entries)[i] == entries[i].0);
            } else {
                assert(after[i].0 == entries[i].0);
                assert(after[j].0 == entries[j].0);
            }
        }
    }
}

/// A finite map from agent identities to values, held as a list of entries
/// in the order in which the keys were first inserted: that order, not the
/// order of the keys, is the order in which the map is walked. As built by
/// `new` and `insert` no key stands in two entries (`wf`); where the
/// entries are written by hand and a key stands twice, its first entry
/// counts.
#[derive(Debug)]
pub struct AgentMap<V> {
    pub entries: Vec<(AgentId, V)>,
}

impl<V> View for AgentMap<V> {
    type V = Seq<(AgentId, V)>;

    /// The entries in order.
    open spec fn view(&self) -> Seq<(AgentId, V)> {
        self.entries@
    }
}

impl<V> AgentMap<V> {
    /// The keys of the entries, in order.
    pub open spec fn keys(self) -> Seq<AgentId> {
        keys_of(self@)
    }

    /// The values of the entries, in order.
    pub open spec fn vals(self) -> Seq<V> {
        vals_of(self@)
    }

    /// The map itself.
    pub open spec fn map(self) -> Map<AgentId, V> {
        as_map(self@)
    }

    /// The invariant of a map built by `new` and `insert`: no key stands in
    /// two entries.
    pub open spec fn wf(self) -> bool {
        distinct(self@)
    }

    /// The empty map.
    pub fn new() -> (m: Self)
        ensures
            m@ == Seq::<(AgentId, V)>::empty(),
            m.map() == Map::<AgentId, V>::empty(),
            m.wf(),
    {
        let m = AgentMap { entries: Vec::new() };
        assert(m.map() =~= Map::<AgentId, V>::empty());
        m
    }

    /// The first position of `k` among the entries.
    pub fn position(&self, k: AgentId) -> (r: Option<usize>)
        ensures
            match r {
                Some(i) => is_first(self.keys(), k, i as int),
                None => !self.keys().contains(k),
            },
    {
        let mut i: usize = 0;
        while i < self.entries.len()
            invariant
                i <= self.entries.len(),
                forall|j: int| 0 <= j < i ==> self.keys()[j] != k,
            decreases self.entries.len() - i,
        {
            if self.entries[i].0 == k {
                return Some(i);
            }
            i += 1;
        }
        None
    }

    /// The value stored under `k`, if any.
    pub fn get(&self, k: AgentId) -> (r: Option<&V>)
        ensures
            match r {
                Some(v) => self.map().contains_key(k) && self.map()[k] == *v,
                None => !self.map().contains_key(k),
            },
    {
        match self.position(k) {
            Some(i) => {
                proof {
                    lemma_first_unique(self.keys(), k, i as int);
                }
                Some(&self.entries[i].1)
            },
            None => None,
        }
    }

    /// Stores `v` under `k`, replacing what was stored there. A known key
    /// keeps its place in the order; a new key goes to the end.
    pub fn insert(&mut self, k: AgentId, v: V)
        ensures
            final(self)@ == put(old(self)@, k, v),
            final(self).map() == old(self).map().insert(k, v),
            old(self).keys().contains(k) ==> final(self).entries@ == old(self).entries@.update(
                first_index(old(self).keys(), k),
                (k, v),
            ),
            !old(self).keys().contains(k) ==> final(self).entries@ == old(self).entries@.push(
                (k, v),
            ),
            old(self).entries@.len() <= final(self).entries@.len() <= old(self).entries@.len() + 1,
            old(self).wf() ==> final(self).wf(),
            forall|i: int|
                0 <= i < final(self).entries@.len() ==> #[trigger] final(self).entries@[i] == (k, v)
                    || (i < old(self).entries@.len() && final(self).entries@[i] == old(
                    self,
                ).entries@[i]),
    {
        let ghost keys0 = self.keys();
        let ghost vals0 = self.vals();
        proof {
            if self.wf() {
                lemma_put_distinct(self@, k, v);
            }
        }
        match self.position(k) {
            Some(i) => {
                self.entries.set(i, (k, v));
                proof {
                    lemma_first_unique(keys0, k, i as int);
                    lemma_overwrite(keys0, vals0, k, v, i as int);
                    assert(self.keys() =~= keys0);
                    assert(self.vals() =~= vals0.update(i as int, v));
                }
            },
            None => {
                self.entries.push((k, v));
                proof {
                    lemma_append(keys0, vals0, k, v);
                    assert(self.keys() =~= keys0.push(k));
                    assert(self.vals() =~= vals0.push(v));
                }
            },
        }
    }
}

impl<V: Copy> AgentMap<V> {
    /// A copy of the map, entry by entry.
    pub fn duplicate(&self) -> (m: Self)
        ensures
            m.entries@ == self.entries@,
            m.map() == self.map(),
            m.wf() == self.wf(),
    {
        let mut entries: Vec<(AgentId, V)> = Vec::new();
        let mut i: usize = 0;
        while i < self.entries.len()
            invariant
                i <= self.entries.len(),
                entries@ == self.entries@.take(i as int),
            decreases self.entries.len() - i,
        {
            let e = self.entries[i];
            entries.push(e);
            assert(entries@ =~= self.entries@.take(i + 1));
            i += 1;
        }
        assert(entries@ =~= self.entries@);
        AgentMap { entries }
    }
}

/// A finite map from names to values, held as a list of entries in the
/// order in which the names were first inserted: that order, not the order
/// of the names, is the order in which the map is walked. As built by `new`
/// and `insert` no name stands in two entries (`wf`); where the entries are
/// written by hand and a name stands twice, its first entry counts.
#[derive(Debug)]
pub struct NameMap<V> {
    pub entries: Vec<(String, V)>,
}

impl<V> View for NameMap<V> {
    type V = Seq<(Seq<char>, V)>;

    /// The entries in order, each name as its characters.
    open spec fn view(&self) -> Seq<(Seq<char>, V)> {
        Seq::new(self.entries@.len(), |i: int| (self.entries@[i].0@, self.entries@[i].1))
    }
}

impl<V> NameMap<V> {
    /// The keys of the entries, in order.
    pub open spec fn keys(self) -> Seq<Seq<char>> {
        keys_of(self@)
    }

    /// The values of the entries, in order.
    pub open spec fn vals(self) -> Seq<V> {
        vals_of(self@)
    }

    /// The map itself.
    pub open spec fn map(self) -> Map<Seq<char>, V> {
        as_map(self@)
    }

    /// The invariant of a map built by `new` and `insert`: no name stands
    /// in two entries.
    pub open spec fn wf(self) -> bool {
        distinct(self@)
    }

    /// The empty map.
    pub fn new() -> (m: Self)
        ensures
            m.entries@ == Seq::<(String, V)>::empty(),
            m@ == Seq::<(Seq<char>, V)>::empty(),
            m.map() == Map::<Seq<char>, V>::empty(),
            m.wf(),
    {
        let m = NameMap { entries: Vec::new() };
        assert(m.map() =~= Map::<Seq<char>, V>::empty());
        assert(m@ =~= Seq::<(Seq<char>, V)>::empty());
        m
    }

    /// The first position of `k` among the entries.
    pub fn position(&self, k: &String) -> (r: Option<usize>)
        ensures
            match r {
                Some(i) => is_first(self.keys(), k@, i as int),
                None => !self.keys().contains(k@),
            },
    {
        let mut i: usize = 0;
        while i < self.entries.len()
            invariant
                i <= self.entries.len(),
                forall|j: int| 0 <= j < i ==> self.keys()[j] != k@,
            decreases self.entries.len() - i,
        {
            if self.entries[i].0 == *k {
                return Some(i);
            }
            i += 1;
        }
        None
    }

    /// The value stored under `k`, if any.
    pub fn get(&self, k: &String) -> (r: Option<&V>)
        ensures
            match r {
                Some(v) => self.map().contains_key(k@) && self.map()[k@] == *v,
                None => !self.map().contains_key(k@),
            },
    {
        match self.position(k) {
            Some(i) => {
                proof {
                    lemma_first_unique(self.keys(), k@, i as int);
                }
                Some(&self.entries[i].1)
            },
            None => None,
        }
    }

    /// Stores `v` under `k`, replacing what was stored there. A known key
    /// keeps its place in the order; a new key goes to the end.
    pub fn insert(&mut self, k: String, v: V)
        ensures
            final(self)@ == put(old(self)@, k@, v),
            final(self).map() == old(self).map().insert(k@, v),
            old(self).keys().contains(k@) ==> final(self).entries@ == old(self).entries@.update(
                first_index(old(self).keys(), k@),
                (k, v),
            ),
            !old(self).keys().contains(k@) ==> final(self).entries@ == old(self).entries@.push(
                (k, v),
            ),
            old(self).entries@.len() <= final(self).entries@.len() <= old(self).entries@.len() + 1,
            old(self).wf() ==> final(self).wf(),
            forall|i: int|
                0 <= i < final(self).entries@.len() ==> #[trigger] final(self).entries@[i] == (k, v)
                    || (i < old(self).entries@.len() && final(self).entries@[i] == old(
                    self,
                ).entries@[i]),
    {
        let ghost keys0 = self.keys();
        let ghost vals0 = self.vals();
        proof {
            if self.wf() {
                lemma_put_distinct(self@, k@, v);
            }
        }
        match self.position(&k) {
            Some(i) => {
                self.entries.set(i, (k, v));
                proof {
                    lemma_first_unique(keys0, k@, i as int);
                    lemma_overwrite(keys0, vals0, k@, v, i as int);
                    assert(self.keys() =~= keys0);
                    assert(self.vals() =~= vals0.update(i as int, v));
                    assert(self@ =~= put(old(self)@, k@, v));
                }
            },
            None => {
                self.entries.push((k, v));
                proof {
                    lemma_append(keys0, vals0, k@, v);
                    assert(self.keys() =~= keys0.push(k@));
                    assert(self.vals() =~= vals0.push(v));
                    assert(self@ =~= put(old(self)@, k@, v));
                }
            },
        }
    }
}

} // verus!

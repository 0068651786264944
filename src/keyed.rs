//! An insertion-ordered table from `u64` keys to values, each key at most once.
use vstd::prelude::*;

verus! {

/// True when no key occurs twice in `s`.
pub open spec fn unique_keys<V>(s: Seq<(u64, V)>) -> bool {
    forall|i: int, j: int| 0 <= i < j < s.len() ==> s[i].0 != s[j].0
}

/// True when `key` occurs in `s`.
pub open spec fn has_key<V>(s: Seq<(u64, V)>, key: u64) -> bool {
    exists|i: int| 0 <= i < s.len() && s[i].0 == key
}

/// The index of `key` in `s`, or -1 when it is absent.
pub open spec fn index_of<V>(s: Seq<(u64, V)>, key: u64) -> int {
    if has_key(s, key) {
        choose|i: int| 0 <= i < s.len() && s[i].0 == key
    } else {
        -1
    }
}

/// The value stored under `key`, if any.
pub open spec fn lookup<V>(s: Seq<(u64, V)>, key: u64) -> Option<V> {
    if has_key(s, key) {
        Some(s[index_of(s, key)].1)
    } else {
        None
    }
}

/// `s` after storing `value` under `key`: in place when the key is present,
/// at the end otherwise.
pub open spec fn put<V>(s: Seq<(u64, V)>, key: u64, value: V) -> Seq<(u64, V)> {
    if has_key(s, key) {
        s.update(index_of(s, key), (key, value))
    } else {
        s.push((key, value))
    }
}

/// `s` without the entry of `key`; the other entries keep their order.
pub open spec fn without<V>(s: Seq<(u64, V)>, key: u64) -> Seq<(u64, V)> {
    if has_key(s, key) {
        s.remove(index_of(s, key))
    } else {
        s
    }
}

/// In a table with unique keys, the index of a key is the one entry that holds it.
pub proof fn lemma_index_of<V>(s: Seq<(u64, V)>, i: int)
    requires
        unique_keys(s),
        0 <= i < s.len(),
    ensures
        has_key(s, s[i].0),
        index_of(s, s[i].0) == i,
        lookup(s, s[i].0) == Some(s[i].1),
{
    assert(s[i].0 == s[i].0);
}

/// Storing a value keeps the keys unique, makes it the one looked up under
/// its key, and leaves every other key's value alone.
pub proof fn lemma_put<V>(s: Seq<(u64, V)>, key: u64, value: V)
    requires
        unique_keys(s),
    ensures
        unique_keys(put(s, key, value)),
        lookup(put(s, key, value), key) == Some(value),
        forall|k: u64| k != key ==> lookup(put(s, key, value), k) == lookup(s, k),
{
    let t = put(s, key, value);
    if has_key(s, key) {
        let p = index_of(s, key);
        assert(0 <= p < s.len() && s[p].0 == key);
        assert(t.len() == s.len());
        assert forall|i: int| 0 <= i < t.len() implies t[i].0 == s[i].0 by {}
        lemma_index_of(t, p);
    } else {
        assert forall|i: int, j: int| 0 <= i < j < t.len() implies t[i].0 != t[j].0 by {
            if j == s.len() {
                assert(s[i].0 != key);
            }
        }
        lemma_index_of(t, s.len() as int);
    }
    assert forall|k: u64| k != key implies lookup(t, k) == lookup(s, k) by {
        if has_key(s, k) {
            let q = index_of(s, k);
            lemma_index_of(t, q);
        } else {
            if has_key(t, k) {
                let q = choose|q: int| 0 <= q < t.len() && t[q].0 == k;
                assert(s[q].0 == k);
            }
        }
    }
}

/// Removing a key keeps the keys unique, leaves nothing under that key, and
/// leaves every other key's value alone.
pub proof fn lemma_without<V>(s: Seq<(u64, V)>, key: u64)
    requires
        unique_keys(s),
    ensures
        unique_keys(without(s, key)),
        lookup(without(s, key), key) is None,
        forall|k: u64| k != key ==> lookup(without(s, key), k) == lookup(s, k),
{
    let t = without(s, key);
    if has_key(s, key) {
        let p = index_of(s, key);
        assert(0 <= p < s.len() && s[p].0 == key);
        assert forall|i: int| 0 <= i < t.len() implies t[i] == (if i < p {
            s[i]
        } else {
            s[i + 1]
        }) by {}
        assert forall|i: int, j: int| 0 <= i < j < t.len() implies t[i].0 != t[j].0 by {
            let a = if i < p { i } else { i + 1 };
            let b = if j < p { j } else { j + 1 };
            assert(a < b);
        }
        if has_key(t, key) {
            let q = choose|q: int| 0 <= q < t.len() && t[q].0 == key;
            let a = if q < p { q } else { q + 1 };
            assert(s[a].0 == key);
        }
        assert forall|k: u64| k != key implies lookup(t, k) == lookup(s, k) by {
            if has_key(s, k) {
                let q = index_of(s, k);
                assert(q != p);
                let a = if q < p { q } else { q - 1 };
                assert(t[a] == s[q]);
                lemma_index_of(t, a);
            } else if has_key(t, k) {
                let q = choose|q: int| 0 <= q < t.len() && t[q].0 == k;
                let a = if q < p { q } else { q + 1 };
                assert(s[a].0 == k);
            }
        }
    }
}

/// Entries keyed by `u64`, in the order in which their keys first came.
pub struct Keyed<V> {
    entries: Vec<(u64, V)>,
}

impl<V> View for Keyed<V> {
    type V = Seq<(u64, V)>;

    closed spec fn view(&self) -> Seq<(u64, V)> {
        self.entries@
    }
}

impl<V> Keyed<V> {
    /// Well-formed: every key occurs at most once.
    pub open spec fn wf(&self) -> bool {
        unique_keys(self@)
    }

    /// An empty table.
    pub fn new() -> (r: Self)
        ensures
            r@ == Seq::<(u64, V)>::empty(),
            r.wf(),
    {
        Keyed { entries: Vec::new() }
    }

    /// The number of keys.
    pub fn len(&self) -> (r: usize)
        ensures
            r == self@.len(),
    {
        self.entries.len()
    }

    /// The key at `i`, in order of arrival.
    pub fn key_at(&self, i: usize) -> (r: u64)
        requires
            i < self@.len(),
        ensures
            r == self@[i as int].0,
    {
        self.entries[i].0
    }

    /// The value at `i`, in order of arrival.
    pub fn value_at(&self, i: usize) -> (r: &V)
        requires
            i < self@.len(),
        ensures
            *r == self@[i as int].1,
    {
        &self.entries[i].1
    }

    /// The value at `i`, to change in place; its key stays.
    pub fn value_at_mut(&mut self, i: usize) -> (r: &mut V)
        requires
            i < old(self)@.len(),
        ensures
            *r == old(self)@[i as int].1,
            final(self)@ == old(self)@.update(i as int, (old(self)@[i as int].0, *final(r))),
    {
        &mut self.entries[i].1
    }

    /// Where `key` stands, if it is present.
    pub fn position(&self, key: u64) -> (r: Option<usize>)
        requires
            self.wf(),
        ensures
            r matches Some(i) ==> has_key(self@, key) && i == index_of(self@, key),
            r is None ==> !has_key(self@, key),
    {
        let mut i: usize = 0;
        while i < self.entries.len()
            invariant
                self.wf(),
                i <= self.entries@.len(),
                forall|j: int| 0 <= j < i ==> self.entries@[j].0 != key,
            decreases self.entries@.len() - i,
        {
            if self.entries[i].0 == key {
                proof {
                    lemma_index_of(self.entries@, i as int);
                }
                return Some(i);
            }
            i = i + 1;
        }
        None
    }

    /// The value stored under `key`.
    pub fn get(&self, key: u64) -> (r: Option<&V>)
        requires
            self.wf(),
        ensures
            r matches Some(v) ==> lookup(self@, key) == Some(*v),
            r is None ==> lookup(self@, key) is None,
    {
        match self.position(key) {
            Some(i) => Some(&self.entries[i].1),
            None => None,
        }
    }

    /// The value stored under `key`, to change in place.
    pub fn get_mut(&mut self, key: u64) -> (r: Option<&mut V>)
        requires
            old(self).wf(),
        ensures
            final(self).wf(),
            match r {
                Some(v) => {
                    &&& lookup(old(self)@, key) == Some(*v)
                    &&& final(self)@ == put(old(self)@, key, *final(v))
                },
                None => {
                    &&& lookup(old(self)@, key) is None
                    &&& final(self)@ == old(self)@
                },
            },
    {
        match self.position(key) {
            Some(i) => Some(self.value_at_mut(i)),
            None => None,
        }
    }

    /// Stores `value` under `key`, replacing and returning what was there.
    pub fn insert(&mut self, key: u64, value: V) -> (r: Option<V>)
        requires
            old(self).wf(),
        ensures
            final(self)@ == put(old(self)@, key, value),
            r == lookup(old(self)@, key),
            final(self).wf(),
    {
        proof {
            lemma_put(self@, key, value);
        }
        match self.position(key) {
            Some(i) => {
                let (_, prev) = self.entries.remove(i);
                self.entries.insert(i, (key, value));
                proof {
                    assert(self.entries@ =~= put(old(self)@, key, value));
                }
                Some(prev)
            },
            None => {
                self.entries.push((key, value));
                None
            },
        }
    }

    /// Removes the entry of `key` and returns its value.
    pub fn remove(&mut self, key: u64) -> (r: Option<V>)
        requires
            old(self).wf(),
        ensures
            final(self)@ == without(old(self)@, key),
            r == lookup(old(self)@, key),
            final(self).wf(),
    {
        proof {
            lemma_without(self@, key);
        }
        match self.position(key) {
            Some(i) => {
                let (_, v) = self.entries.remove(i);
                Some(v)
            },
            None => None,
        }
    }
}

} // verus!

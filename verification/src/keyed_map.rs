//! A map from string keys to values that remembers insertion order.

use vstd::prelude::*;

verus! {

/// Whether `k` is a key of the entry sequence `s`.
pub open spec fn has_key<T>(s: Seq<(Seq<char>, T)>, k: Seq<char>) -> bool {
    exists|i: int| 0 <= i < s.len() && #[trigger] s[i].0 == k
}

/// No key occurs twice in `s`.
pub open spec fn unique_keys<T>(s: Seq<(Seq<char>, T)>) -> bool {
    forall|i: int, j: int|
        0 <= i < s.len() && 0 <= j < s.len() && i != j ==> #[trigger] s[i].0 != #[trigger] s[j].0
}

/// The position of key `k` in `s` (meaningful when `has_key(s, k)`).
pub open spec fn key_index<T>(s: Seq<(Seq<char>, T)>, k: Seq<char>) -> int {
    choose|i: int| 0 <= i < s.len() && #[trigger] s[i].0 == k
}

/// The value stored under `k` in `s`, if any.
pub open spec fn lookup<T>(s: Seq<(Seq<char>, T)>, k: Seq<char>) -> Option<T> {
    if has_key(s, k) {
        Some(s[key_index(s, k)].1)
    } else {
        None
    }
}

/// The entries of `s` after an insertion of `(k, v)`: an existing key keeps its
/// place and gets the new value, a new key goes at the end.
pub open spec fn inserted<T>(s: Seq<(Seq<char>, T)>, k: Seq<char>, v: T) -> Seq<(Seq<char>, T)> {
    if has_key(s, k) {
        s.update(key_index(s, k), (k, v))
    } else {
        s.push((k, v))
    }
}

/// The entries of `s` with key `k` taken out, the others in their order.
pub open spec fn removed<T>(s: Seq<(Seq<char>, T)>, k: Seq<char>) -> Seq<(Seq<char>, T)> {
    if has_key(s, k) {
        s.remove(key_index(s, k))
    } else {
        s
    }
}

/// With unique keys, the index of a key is the one position that holds it.
pub proof fn lemma_key_index<T>(s: Seq<(Seq<char>, T)>, i: int)
    requires
        unique_keys(s),
        0 <= i < s.len(),
    ensures
        has_key(s, s[i].0),
        key_index(s, s[i].0) == i,
{
    assert(has_key(s, s[i].0));
}

/// A read after a write: after `insert(k, v)` the map gives back `v` under `k`,
/// every other key keeps its value, keys stay unique, and the number of
/// entries grows by one exactly when `k` was new.
pub proof fn law_lookup_after_insert<T>(s: Seq<(Seq<char>, T)>, k: Seq<char>, v: T, other: Seq<char>)
    requires
        unique_keys(s),
        other != k,
    ensures
        lookup(inserted(s, k, v), k) == Some(v),
        lookup(inserted(s, k, v), other) == lookup(s, other),
        unique_keys(inserted(s, k, v)),
        inserted(s, k, v).len() == if has_key(s, k) { s.len() } else { s.len() + 1 },
{
    let t = inserted(s, k, v);
    if has_key(s, k) {
        let i = key_index(s, k);
        assert(t[i].0 == k);
        assert forall|a: int, b: int|
            0 <= a < t.len() && 0 <= b < t.len() && a != b implies #[trigger] t[a].0
            != #[trigger] t[b].0 by {
            assert(s[a].0 != s[b].0);
        }
        lemma_key_index(t, i);
        if has_key(s, other) {
            let j = key_index(s, other);
            assert(j != i);
            lemma_key_index(t, j);
            lemma_key_index(s, j);
        } else {
            if has_key(t, other) {
                let j = choose|j: int| 0 <= j < t.len() && #[trigger] t[j].0 == other;
                assert(s[j].0 == other);
            }
        }
    } else {
        let n = s.len() as int;
        assert forall|a: int, b: int|
            0 <= a < t.len() && 0 <= b < t.len() && a != b implies #[trigger] t[a].0
            != #[trigger] t[b].0 by {
            if a < n && b < n {
                assert(s[a].0 != s[b].0);
            } else if a < n {
                assert(s[a].0 != k);
            } else {
                assert(s[b].0 != k);
            }
        }
        lemma_key_index(t, n);
        if has_key(s, other) {
            let j = key_index(s, other);
            lemma_key_index(t, j);
            lemma_key_index(s, j);
        } else {
            if has_key(t, other) {
                let j = choose|j: int| 0 <= j < t.len() && #[trigger] t[j].0 == other;
                assert(j < n);
                assert(s[j].0 == other);
            }
        }
    }
}

/// After `remove(k)` the map has no entry under `k`, every other key keeps its
/// value, and the number of entries shrinks by one exactly when `k` was there.
pub proof fn law_lookup_after_remove<T>(s: Seq<(Seq<char>, T)>, k: Seq<char>, other: Seq<char>)
    requires
        unique_keys(s),
        other != k,
    ensures
        lookup(removed(s, k), k) == None::<T>,
        lookup(removed(s, k), other) == lookup(s, other),
        unique_keys(removed(s, k)),
        removed(s, k).len() == if has_key(s, k) { s.len() - 1 } else { s.len() as int },
{
    if has_key(s, k) {
        let i = key_index(s, k);
        let t = removed(s, k);
        assert(t =~= s.remove(i));
        assert forall|a: int, b: int|
            0 <= a < t.len() && 0 <= b < t.len() && a != b implies #[trigger] t[a].0
            != #[trigger] t[b].0 by {
            let a0 = if a < i { a } else { a + 1 };
            let b0 = if b < i { b } else { b + 1 };
            assert(s[a0].0 != s[b0].0);
        }
        if has_key(t, k) {
            let j = choose|j: int| 0 <= j < t.len() && #[trigger] t[j].0 == k;
            let j0 = if j < i { j } else { j + 1 };
            assert(s[j0].0 == k);
        }
        if has_key(s, other) {
            let j = key_index(s, other);
            assert(j != i);
            let j1 = if j < i { j } else { j - 1 };
            assert(t[j1] == s[j]);
            lemma_key_index(t, j1);
        } else {
            if has_key(t, other) {
                let j = choose|j: int| 0 <= j < t.len() && #[trigger] t[j].0 == other;
                let j0 = if j < i { j } else { j + 1 };
                assert(s[j0].0 == other);
            }
        }
    }
}

/// Inserting a new key and removing it again gives back the map it started
/// from.
pub proof fn law_remove_undoes_insert<T>(s: Seq<(Seq<char>, T)>, k: Seq<char>, v: T)
    requires
        unique_keys(s),
        !has_key(s, k),
    ensures
        removed(inserted(s, k, v), k) == s,
{
    let t = inserted(s, k, v);
    assert(t == s.push((k, v)));
    let n = s.len() as int;
    assert forall|a: int, b: int|
        0 <= a < t.len() && 0 <= b < t.len() && a != b implies #[trigger] t[a].0
        != #[trigger] t[b].0 by {
        if a < n && b < n {
            assert(s[a].0 != s[b].0);
        } else if a < n {
            assert(s[a].0 != k);
        } else {
            assert(s[b].0 != k);
        }
    }
    lemma_key_index(t, n);
    assert(t.remove(s.len() as int) =~= s);
}

/// Values that can be copied with their deep view intact.
pub trait Duplicate: Sized + DeepView {
    fn duplicate(&self) -> (r: Self)
        ensures
            r.deep_view() == self.deep_view(),
    ;
}

impl Duplicate for u64 {
    fn duplicate(&self) -> (r: u64) {
        *self
    }
}

/// A map from string keys to values. Each key occurs at most once; the entries
/// keep the order in which their keys were first inserted.
#[derive(Debug)]
pub struct KeyedMap<V: DeepView> {
    entries: Vec<(String, V)>,
}

/// The abstract entries of a vector of key/value pairs.
pub open spec fn entries_view<V: DeepView>(e: Seq<(String, V)>) -> Seq<(Seq<char>, V::V)> {
    e.map_values(|p: (String, V)| (p.0@, p.1.deep_view()))
}

impl<V: DeepView> View for KeyedMap<V> {
    type V = Seq<(Seq<char>, V::V)>;

    closed spec fn view(&self) -> Seq<(Seq<char>, V::V)> {
        entries_view(self.entries@)
    }
}

impl<V: DeepView> KeyedMap<V> {
    #[verifier::type_invariant]
    pub open spec fn keys_unique(&self) -> bool {
        unique_keys(self@)
    }

    /// An empty map.
    pub fn new() -> (m: Self)
        ensures
            m@ == Seq::<(Seq<char>, V::V)>::empty(),
    {
        let m = KeyedMap { entries: Vec::new() };
        assert(m@ =~= Seq::<(Seq<char>, V::V)>::empty());
        m
    }

    /// Moves the entries out, leaving the map empty.
    fn take_entries(&mut self) -> (e: Vec<(String, V)>)
        ensures
            entries_view(e@) == old(self)@,
            unique_keys(entries_view(e@)),
            final(self)@.len() == 0,
    {
        proof {
            use_type_invariant(&*self);
        }
        let mut e: Vec<(String, V)> = Vec::new();
        std::mem::swap(&mut e, &mut self.entries);
        assert(self@ =~= Seq::<(Seq<char>, V::V)>::empty());
        e
    }

    /// The number of entries.
    pub fn len(&self) -> (n: usize)
        ensures
            n == self@.len(),
    {
        self.entries.len()
    }

    /// Whether the map has no entries.
    pub fn is_empty(&self) -> (b: bool)
        ensures
            b == (self@.len() == 0),
    {
        self.entries.len() == 0
    }

    /// The key of the entry at position `i`.
    pub fn key_at(&self, i: usize) -> (k: &String)
        requires
            i < self@.len(),
        ensures
            k@ == self@[i as int].0,
    {
        &self.entries[i].0
    }

    /// The value of the entry at position `i`.
    pub fn value_at(&self, i: usize) -> (v: &V)
        requires
            i < self@.len(),
        ensures
            v.deep_view() == self@[i as int].1,
    {
        &self.entries[i].1
    }

    /// The position of `key`, if it is a key of the map.
    fn find(&self, key: &String) -> (r: Option<usize>)
        ensures
            match r {
                Some(i) => i < self@.len() && self@[i as int].0 == key@ && has_key(self@, key@)
                    && key_index(self@, key@) == i,
                None => !has_key(self@, key@),
            },
    {
        proof {
            use_type_invariant(self);
        }
        let n = self.entries.len();
        let mut i: usize = 0;
        while i < n
            invariant
                n == self@.len(),
                i <= n,
                unique_keys(self@),
                forall|j: int| 0 <= j < i ==> self@[j].0 != key@,
            decreases n - i,
        {
            if self.entries[i].0 == *key {
                proof {
                    lemma_key_index(self@, i as int);
                }
                return Some(i);
            }
            i = i + 1;
        }
        None
    }

    /// The position of `key` in the entry order, if it is a key of the map.
    pub fn position(&self, key: &str) -> (r: Option<usize>)
        ensures
            match r {
                Some(i) => i < self@.len() && self@[i as int].0 == key@ && has_key(self@, key@)
                    && key_index(self@, key@) == i,
                None => !has_key(self@, key@),
            },
    {
        let k = key.to_owned();
        self.find(&k)
    }

    /// Whether `key` is a key of the map.
    pub fn contains_key(&self, key: &str) -> (b: bool)
        ensures
            b == has_key(self@, key@),
    {
        let k = key.to_owned();
        self.find(&k).is_some()
    }

    /// The value stored under `key`, if any.
    pub fn get(&self, key: &str) -> (r: Option<&V>)
        ensures
            match r {
                Some(v) => lookup(self@, key@) == Some(v.deep_view()),
                None => lookup(self@, key@) == None::<V::V>,
            },
    {
        let k = key.to_owned();
        match self.find(&k) {
            Some(i) => Some(&self.entries[i].1),
            None => None,
        }
    }

    /// Stores `value` under `key`. An existing key keeps its position and
    /// gets the new value, which is then returned the old one; a new key is
    /// added at the end.
    pub fn insert(&mut self, key: String, value: V) -> (r: Option<V>)
        ensures
            final(self)@ == inserted(old(self)@, key@, value.deep_view()),
            match r {
                Some(o) => lookup(old(self)@, key@) == Some(o.deep_view()),
                None => !has_key(old(self)@, key@),
            },
    {
        proof {
            use_type_invariant(&*self);
        }
        let ghost old_view = self@;
        let ghost kv = key@;
        let ghost vv = value.deep_view();
        let found = self.find(&key);
        let mut entries = self.take_entries();
        match found {
            Some(i) => {
                let old_entry = entries.remove(i);
                entries.insert(i, (key, value));
                proof {
                    assert(entries_view(entries@) =~= old_view.update(i as int, (kv, vv)));
                    assert forall|a: int, b: int|
                        0 <= a < old_view.len() && 0 <= b < old_view.len() && a != b
                        implies #[trigger] entries_view(entries@)[a].0
                            != #[trigger] entries_view(entries@)[b].0 by {
                        assert(old_view[a].0 != old_view[b].0);
                    }
                }
                self.entries = entries;
                Some(old_entry.1)
            },
            None => {
                entries.push((key, value));
                proof {
                    assert(entries_view(entries@) =~= old_view.push((kv, vv)));
                    assert forall|a: int, b: int|
                        0 <= a < old_view.len() + 1 && 0 <= b < old_view.len() + 1 && a != b
                        implies #[trigger] entries_view(entries@)[a].0
                            != #[trigger] entries_view(entries@)[b].0 by {
                        if a < old_view.len() && b < old_view.len() {
                            assert(old_view[a].0 != old_view[b].0);
                        } else if a < old_view.len() {
                            assert(old_view[a].0 != kv);
                        } else {
                            assert(old_view[b].0 != kv);
                        }
                    }
                }
                self.entries = entries;
                None
            },
        }
    }

    /// Adds `(key, value)` at the end; `key` must be new to the map.
    pub fn push_new(&mut self, key: String, value: V)
        requires
            !has_key(old(self)@, key@),
        ensures
            final(self)@ == old(self)@.push((key@, value.deep_view())),
    {
        proof {
            use_type_invariant(&*self);
        }
        let ghost old_view = self@;
        let ghost kv = key@;
        let ghost vv = value.deep_view();
        let mut entries = self.take_entries();
        entries.push((key, value));
        proof {
            assert(entries_view(entries@) =~= old_view.push((kv, vv)));
            assert forall|a: int, b: int|
                0 <= a < old_view.len() + 1 && 0 <= b < old_view.len() + 1 && a != b
                implies #[trigger] entries_view(entries@)[a].0
                    != #[trigger] entries_view(entries@)[b].0 by {
                if a < old_view.len() && b < old_view.len() {
                    assert(old_view[a].0 != old_view[b].0);
                } else if a < old_view.len() {
                    assert(old_view[a].0 != kv);
                } else {
                    assert(old_view[b].0 != kv);
                }
            }
        }
        self.entries = entries;
    }

    /// Takes the entry under `key` out of the map and returns its value; the
    /// other entries keep their order.
    pub fn remove(&mut self, key: &str) -> (r: Option<V>)
        ensures
            final(self)@ == removed(old(self)@, key@),
            match r {
                Some(o) => lookup(old(self)@, key@) == Some(o.deep_view()),
                None => !has_key(old(self)@, key@),
            },
    {
        let k = key.to_owned();
        match self.find(&k) {
            Some(i) => {
                let (_, v) = self.take_at(i);
                Some(v)
            },
            None => None,
        }
    }

    /// Takes the entry at position `i` out of the map.
    pub fn take_at(&mut self, i: usize) -> (r: (String, V))
        requires
            i < old(self)@.len(),
        ensures
            final(self)@ == old(self)@.remove(i as int),
            (r.0@, r.1.deep_view()) == old(self)@[i as int],
            !has_key(final(self)@, r.0@),
    {
        proof {
            use_type_invariant(&*self);
        }
        let ghost old_view = self@;
        let mut entries = self.take_entries();
        let e = entries.remove(i);
        proof {
            let nv = entries_view(entries@);
            assert(nv =~= old_view.remove(i as int));
            if has_key(nv, e.0@) {
                let j = choose|j: int| 0 <= j < nv.len() && #[trigger] nv[j].0 == e.0@;
                if j < i {
                    assert(old_view[j].0 == old_view[i as int].0);
                } else {
                    assert(old_view[j + 1].0 == old_view[i as int].0);
                }
            }
            assert forall|a: int, b: int|
                0 <= a < nv.len() && 0 <= b < nv.len() && a != b
                implies #[trigger] nv[a].0 != #[trigger] nv[b].0 by {
                let a0 = if a < i { a } else { a + 1 };
                let b0 = if b < i { b } else { b + 1 };
                assert(old_view[a0].0 != old_view[b0].0);
            }
        }
        self.entries = entries;
        e
    }

    /// Puts `(key, value)` back at position `i`; `key` must be new to the map.
    pub fn put_at(&mut self, i: usize, key: String, value: V)
        requires
            i <= old(self)@.len(),
            !has_key(old(self)@, key@),
        ensures
            final(self)@ == old(self)@.insert(i as int, (key@, value.deep_view())),
    {
        proof {
            use_type_invariant(&*self);
        }
        let ghost old_view = self@;
        let ghost kv = key@;
        let ghost vv = value.deep_view();
        let mut entries = self.take_entries();
        entries.insert(i, (key, value));
        proof {
            let nv = entries_view(entries@);
            assert(nv =~= old_view.insert(i as int, (kv, vv)));
            assert forall|a: int, b: int|
                0 <= a < nv.len() && 0 <= b < nv.len() && a != b
                implies #[trigger] nv[a].0 != #[trigger] nv[b].0 by {
                if a != i && b != i {
                    let a0 = if a < i { a } else { a - 1 };
                    let b0 = if b < i { b } else { b - 1 };
                    assert(old_view[a0].0 != old_view[b0].0);
                } else if a == i {
                    let b0 = if b < i { b } else { b - 1 };
                    assert(old_view[b0].0 == nv[b].0);
                } else {
                    let a0 = if a < i { a } else { a - 1 };
                    assert(old_view[a0].0 == nv[a].0);
                }
            }
        }
        self.entries = entries;
    }
}

impl<V: Duplicate> Clone for KeyedMap<V> {
    fn clone(&self) -> (r: Self)
        ensures
            r@ == self@,
    {
        self.duplicate_map()
    }
}

impl<V: Duplicate> KeyedMap<V> {
    /// A copy of the map with the same entries in the same order.
    pub fn duplicate_map(&self) -> (r: Self)
        ensures
            r@ == self@,
    {
        proof {
            use_type_invariant(self);
        }
        let n = self.entries.len();
        let mut out: Vec<(String, V)> = Vec::new();
        let mut i: usize = 0;
        while i < n
            invariant
                n == self@.len(),
                i <= n,
                unique_keys(self@),
                out@.len() == i,
                forall|j: int| 0 <= j < i ==> (#[trigger] out@[j]).0@ == self@[j].0
                    && out@[j].1.deep_view() == self@[j].1,
            decreases n - i,
        {
            let k = self.entries[i].0.clone();
            let v = self.entries[i].1.duplicate();
            out.push((k, v));
            i = i + 1;
        }
        assert(entries_view(out@) =~= self@);
        KeyedMap { entries: out }
    }
}

} // verus!

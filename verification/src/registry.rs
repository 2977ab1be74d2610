//! A small map from client ids to per-client state.

use vstd::prelude::*;

verus! {

/// Whether some entry of `s` has key `k`.
pub open spec fn has_key<T>(s: Seq<(String, T)>, k: Seq<char>) -> bool {
    exists|i: int| 0 <= i < s.len() && (#[trigger] s[i]).0@ == k
}

/// A position in `s` of an entry with key `k` (meaningful when `has_key(s, k)`).
pub open spec fn key_index<T>(s: Seq<(String, T)>, k: Seq<char>) -> int {
    choose|i: int| 0 <= i < s.len() && (#[trigger] s[i]).0@ == k
}

/// No two entries of `s` share a key.
pub open spec fn distinct_keys<T>(s: Seq<(String, T)>) -> bool {
    forall|i: int, j: int|
        0 <= i < s.len() && 0 <= j < s.len() && i != j ==> (#[trigger] s[i]).0@ != (
        #[trigger] s[j]).0@
}

/// The map that the entries of `s` describe.
pub open spec fn entries_map<T>(s: Seq<(String, T)>) -> Map<Seq<char>, T> {
    Map::new(|k: Seq<char>| has_key(s, k), |k: Seq<char>| s[key_index(s, k)].1)
}

/// Client state keyed by client id; adding an id that is present replaces
/// its state.
pub struct Registry<T> {
    entries: Vec<(String, T)>,
}

impl<T> View for Registry<T> {
    type V = Map<Seq<char>, T>;

    closed spec fn view(&self) -> Map<Seq<char>, T> {
        entries_map(self.entries@)
    }
}

/// With distinct keys, an entry with key `k` sits at the chosen position.
proof fn lemma_key_index_unique<T>(s: Seq<(String, T)>, i: int)
    requires
        distinct_keys(s),
        0 <= i < s.len(),
    ensures
        has_key(s, s[i].0@),
        key_index(s, s[i].0@) == i,
{
    let k = s[i].0@;
    assert(has_key(s, k));
    let c = key_index(s, k);
    if c != i {
        assert(s[c].0@ != s[i].0@);
    }
}

/// Removing the entry at `i` removes its key from the map and keeps the rest.
proof fn lemma_remove_entry<T>(s: Seq<(String, T)>, i: int)
    requires
        distinct_keys(s),
        0 <= i < s.len(),
    ensures
        distinct_keys(s.remove(i)),
        entries_map(s.remove(i)) =~= entries_map(s).remove(s[i].0@),
{
    let t = s.remove(i);
    let k = s[i].0@;
    assert forall|a: int, b: int|
        0 <= a < t.len() && 0 <= b < t.len() && a != b implies (#[trigger] t[a]).0@ != (
        #[trigger] t[b]).0@ by {
        let a0 = if a < i { a } else { a + 1 };
        let b0 = if b < i { b } else { b + 1 };
        assert(t[a] == s[a0]);
        assert(t[b] == s[b0]);
    }
    assert forall|key: Seq<char>| #[trigger] has_key(t, key) <==> (has_key(s, key) && key != k) by {
        if has_key(t, key) {
            let a = key_index(t, key);
            let a0 = if a < i { a } else { a + 1 };
            assert(t[a] == s[a0]);
            assert(s[a0].0@ == key);
            if key == k {
                assert(s[a0].0@ != s[i].0@);
            }
        }
        if has_key(s, key) && key != k {
            let a0 = key_index(s, key);
            assert(a0 != i);
            let a = if a0 < i { a0 } else { a0 - 1 };
            assert(t[a] == s[a0]);
        }
    }
    assert forall|key: Seq<char>| has_key(t, key) implies t[key_index(t, key)].1 == s[key_index(
        s,
        key,
    )].1 by {
        let a = key_index(t, key);
        let a0 = if a < i { a } else { a + 1 };
        assert(t[a] == s[a0]);
        lemma_key_index_unique(s, a0);
    }
}

/// Appending an entry with a new key adds that key to the map.
proof fn lemma_push_entry<T>(s: Seq<(String, T)>, e: (String, T))
    requires
        distinct_keys(s),
        !has_key(s, e.0@),
    ensures
        distinct_keys(s.push(e)),
        entries_map(s.push(e)) =~= entries_map(s).insert(e.0@, e.1),
{
    let t = s.push(e);
    let n = s.len() as int;
    assert forall|a: int, b: int|
        0 <= a < t.len() && 0 <= b < t.len() && a != b implies (#[trigger] t[a]).0@ != (
        #[trigger] t[b]).0@ by {
        if a < n {
            assert(t[a] == s[a]);
        }
        if b < n {
            assert(t[b] == s[b]);
        }
    }
    assert(t[n] == e);
    assert forall|key: Seq<char>| #[trigger] has_key(t, key) <==> (has_key(s, key) || key == e.0@) by {
        if has_key(s, key) {
            let a = key_index(s, key);
            assert(t[a] == s[a]);
        }
        if has_key(t, key) {
            let a = key_index(t, key);
            if a < n {
                assert(t[a] == s[a]);
            }
        }
    }
    assert forall|key: Seq<char>| has_key(t, key) implies t[key_index(t, key)].1 == (if key == e.0@ {
        e.1
    } else {
        s[key_index(s, key)].1
    }) by {
        let a = key_index(t, key);
        lemma_key_index_unique(t, a);
        if a < n {
            assert(t[a] == s[a]);
            lemma_key_index_unique(s, a);
        }
    }
}

impl<T> Registry<T> {
    /// No two entries share a client id.
    pub closed spec fn wf(&self) -> bool {
        distinct_keys(self.entries@)
    }

    /// An empty registry.
    pub fn new() -> (r: Self)
        ensures
            r.wf(),
            r@ == Map::<Seq<char>, T>::empty(),
    {
        let r = Registry { entries: Vec::new() };
        assert(r@ =~= Map::<Seq<char>, T>::empty());
        r
    }

    /// Number of clients.
    pub fn len(&self) -> (n: usize)
        requires
            self.wf(),
        ensures
            n == self@.len(),
    {
        proof {
            self.lemma_len();
        }
        self.entries.len()
    }

    proof fn lemma_len(&self)
        requires
            self.wf(),
        ensures
            self@.len() == self.entries@.len(),
    {
        let s = self.entries@;
        let keys = s.map_values(|e: (String, T)| e.0@);
        assert(self@.dom() =~= keys.to_set()) by {
            assert forall|k: Seq<char>| self@.dom().contains(k) <==> keys.to_set().contains(k) by {
                if has_key(s, k) {
                    let i = key_index(s, k);
                    assert(keys[i] == k);
                }
                if keys.to_set().contains(k) {
                    let i = choose|i: int| 0 <= i < keys.len() && keys[i] == k;
                    assert(s[i].0@ == k);
                }
            }
        }
        assert(keys.no_duplicates()) by {
            assert forall|i: int, j: int|
                0 <= i < keys.len() && 0 <= j < keys.len() && i != j implies keys[i] != keys[j] by {
                assert(s[i].0@ != s[j].0@);
            }
        }
        keys.unique_seq_to_set();
    }

    /// Position of the entry for `key`, if any.
    fn find(&self, key: &str) -> (r: Option<usize>)
        requires
            self.wf(),
        ensures
            r is None <==> !self@.contains_key(key@),
            r matches Some(i) ==> i < self.entries@.len() && self.entries@[i as int].0@ == key@,
    {
        let k = key.to_owned();
        let mut i: usize = 0;
        while i < self.entries.len()
            invariant
                i <= self.entries@.len(),
                k@ == key@,
                forall|j: int| 0 <= j < i ==> (#[trigger] self.entries@[j]).0@ != key@,
            decreases self.entries@.len() - i,
        {
            if self.entries[i].0 == k {
                assert(has_key(self.entries@, key@));
                return Some(i);
            }
            i = i + 1;
        }
        None
    }

    /// Adds `value` under `key`, replacing what the key held before.
    pub fn insert(&mut self, key: String, value: T)
        requires
            old(self).wf(),
        ensures
            final(self).wf(),
            final(self)@ == old(self)@.insert(key@, value),
    {
        let ghost s0 = self.entries@;
        match self.find(key.as_str()) {
            Some(i) => {
                proof {
                    lemma_remove_entry(self.entries@, i as int);
                }
                let _replaced = self.entries.remove(i);
            },
            None => {},
        }
        proof {
            assert(!has_key(self.entries@, key@));
            lemma_push_entry(self.entries@, (key, value));
        }
        self.entries.push((key, value));
        assert(self@ =~= entries_map(s0).insert(key@, value));
    }

    /// The value held under `key`, if any.
    pub fn get(&self, key: &str) -> (r: Option<&T>)
        requires
            self.wf(),
        ensures
            r matches Some(v) ==> self@.contains_key(key@) && *v == self@[key@],
            r is None ==> !self@.contains_key(key@),
    {
        match self.find(key) {
            Some(i) => {
                proof {
                    lemma_key_index_unique(self.entries@, i as int);
                }
                Some(&self.entries[i].1)
            },
            None => None,
        }
    }

    /// Takes the value held under `key` out of the registry, if any.
    pub fn remove(&mut self, key: &str) -> (r: Option<T>)
        requires
            old(self).wf(),
        ensures
            final(self).wf(),
            final(self)@ == old(self)@.remove(key@),
            r matches Some(v) ==> old(self)@.contains_key(key@) && v == old(self)@[key@],
            r is None ==> !old(self)@.contains_key(key@),
    {
        match self.find(key) {
            Some(i) => {
                proof {
                    lemma_key_index_unique(self.entries@, i as int);
                    lemma_remove_entry(self.entries@, i as int);
                }
                let (_k, v) = self.entries.remove(i);
                Some(v)
            },
            None => {
                assert(self@ =~= self@.remove(key@));
                None
            },
        }
    }
}

} // verus!

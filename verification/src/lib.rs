//! An in-memory key-value store mapping string keys to string values.
//!
//! The store's abstract state is a [`Map`] from the key's characters to the
//! value's characters; `set`, `get` and `remove` are specified against that
//! map, and a freshly created store denotes the empty map.

use vstd::prelude::*;

verus! {

/// Stores key-value pairs in memory.
///
/// Internally the pairs sit in a vector with pairwise distinct keys; the
/// abstract state (the view) is the mapping that the vector denotes.
#[derive(Debug)]
pub struct KvStore {
    entries: Vec<(String, String)>,
}

/// The mapping that an entry list denotes: a later entry for a key wins.
spec fn map_of(entries: Seq<(String, String)>) -> Map<Seq<char>, Seq<char>>
    decreases entries.len(),
{
    if entries.len() == 0 {
        Map::empty()
    } else {
        map_of(entries.drop_last()).insert(entries.last().0@, entries.last().1@)
    }
}

/// No two entries carry the same key.
spec fn unique_keys(entries: Seq<(String, String)>) -> bool {
    forall|i: int, j: int|
        0 <= i < j < entries.len() ==> entries[i].0@ != entries[j].0@
}

/// What `get` returns on a store whose mapping is `m`: the value under the
/// key if the key is present, absent otherwise.
pub open spec fn spec_get(m: Map<Seq<char>, Seq<char>>, k: Seq<char>) -> Option<Seq<char>> {
    if m.contains_key(k) {
        Some(m[k])
    } else {
        None
    }
}

impl View for KvStore {
    type V = Map<Seq<char>, Seq<char>>;

    closed spec fn view(&self) -> Map<Seq<char>, Seq<char>> {
        map_of(self.entries@)
    }
}

/// A key is in the denoted mapping exactly when some entry carries it.
proof fn lemma_map_of_contains(entries: Seq<(String, String)>, k: Seq<char>)
    ensures
        map_of(entries).contains_key(k) <==> exists|i: int|
            0 <= i < entries.len() && entries[i].0@ == k,
    decreases entries.len(),
{
    if entries.len() > 0 {
        lemma_map_of_contains(entries.drop_last(), k);
        if entries.last().0@ == k {
            assert(entries[entries.len() - 1].0@ == k);
        } else {
            if exists|i: int| 0 <= i < entries.len() && entries[i].0@ == k {
                let i = choose|i: int| 0 <= i < entries.len() && entries[i].0@ == k;
                assert(entries.drop_last()[i].0@ == k);
            }
        }
    }
}

/// Dropping the last entry keeps the keys pairwise distinct.
proof fn lemma_unique_drop_last(entries: Seq<(String, String)>)
    requires
        unique_keys(entries),
        entries.len() > 0,
    ensures
        unique_keys(entries.drop_last()),
{
    assert forall|i: int, j: int|
        0 <= i < j < entries.drop_last().len() implies entries.drop_last()[i].0@
        != entries.drop_last()[j].0@ by {
        assert(entries.drop_last()[i] == entries[i]);
        assert(entries.drop_last()[j] == entries[j]);
    }
}

/// With pairwise distinct keys, the mapping sends each entry's key to that
/// entry's value.
proof fn lemma_map_of_index(entries: Seq<(String, String)>, i: int)
    requires
        unique_keys(entries),
        0 <= i < entries.len(),
    ensures
        map_of(entries).contains_key(entries[i].0@),
        map_of(entries)[entries[i].0@] == entries[i].1@,
    decreases entries.len(),
{
    if i < entries.len() - 1 {
        lemma_unique_drop_last(entries);
        lemma_map_of_index(entries.drop_last(), i);
        assert(entries.drop_last()[i] == entries[i]);
        assert(entries.last().0@ != entries[i].0@);
    }
}

/// Taking out the entry at `i` takes exactly its key out of the mapping, and
/// keeps the remaining keys pairwise distinct.
proof fn lemma_map_of_remove_at(entries: Seq<(String, String)>, i: int)
    requires
        unique_keys(entries),
        0 <= i < entries.len(),
    ensures
        map_of(entries.remove(i)) == map_of(entries).remove(entries[i].0@),
        unique_keys(entries.remove(i)),
        forall|j: int| 0 <= j < entries.remove(i).len() ==> entries.remove(i)[j].0@ != entries[i].0@,
    decreases entries.len(),
{
    let k = entries[i].0@;
    let shorter = entries.remove(i);
    assert forall|a: int, b: int|
        0 <= a < b < shorter.len() implies shorter[a].0@ != shorter[b].0@ by {
        assert(shorter[a] == (if a < i { entries[a] } else { entries[a + 1] }));
        assert(shorter[b] == (if b < i { entries[b] } else { entries[b + 1] }));
    }
    assert forall|j: int| 0 <= j < shorter.len() implies shorter[j].0@ != k by {
        assert(shorter[j] == (if j < i { entries[j] } else { entries[j + 1] }));
    }
    lemma_unique_drop_last(entries);
    if i == entries.len() - 1 {
        assert(shorter =~= entries.drop_last());
        lemma_map_of_contains(entries.drop_last(), k);
        assert(map_of(entries).remove(k) =~= map_of(entries.drop_last()));
    } else {
        lemma_map_of_remove_at(entries.drop_last(), i);
        assert(shorter.drop_last() =~= entries.drop_last().remove(i));
        assert(shorter.last() == entries.last());
        assert(map_of(shorter) == map_of(entries.drop_last()).remove(k).insert(
            entries.last().0@,
            entries.last().1@,
        ));
        assert(entries.last().0@ != k);
        assert(map_of(entries).remove(k) =~= map_of(shorter));
    }
}

impl KvStore {
    /// The keys of the stored entries are pairwise distinct.
    #[verifier::type_invariant]
    spec fn wf(self) -> bool {
        unique_keys(self.entries@)
    }

    /// Creates an empty new key-value store.
    pub fn new() -> (r: KvStore)
        ensures
            r@ == Map::<Seq<char>, Seq<char>>::empty(),
    {
        KvStore { entries: Vec::new() }
    }

    /// The index of the entry carrying `key`, if one does.
    fn find_index(entries: &Vec<(String, String)>, key: &String) -> (r: Option<usize>)
        ensures
            match r {
                Some(i) => i < entries@.len() && entries@[i as int].0@ == key@,
                None => forall|j: int| 0 <= j < entries@.len() ==> entries@[j].0@ != key@,
            },
    {
        let mut i: usize = 0;
        while i < entries.len()
            invariant
                i <= entries@.len(),
                forall|j: int| 0 <= j < i ==> entries@[j].0@ != key@,
            decreases entries@.len() - i,
        {
            if entries[i].0 == *key {
                return Some(i);
            }
            i = i + 1;
        }
        None
    }

    /// Gets the value in the store under the key, or absent if the key has
    /// never been set or has been removed. A pure read: the store is
    /// untouched, and the result is an owned copy, independent of the store.
    pub fn get(&self, key: String) -> (r: Option<String>)
        ensures
            r.deep_view() == spec_get(self@, key@),
    {
        proof {
            use_type_invariant(self);
        }
        match Self::find_index(&self.entries, &key) {
            Some(i) => {
                proof {
                    lemma_map_of_index(self.entries@, i as int);
                }
                Some(self.entries[i].1.clone())
            },
            None => {
                proof {
                    lemma_map_of_contains(self.entries@, key@);
                }
                None
            },
        }
    }

    /// Sets a key with a value in the store. If the key was already present
    /// its prior value is discarded and replaced: last write wins. The store
    /// takes ownership of both strings, so it holds its own copies.
    pub fn set(&mut self, key: String, value: String)
        ensures
            final(self)@ == old(self)@.insert(key@, value@),
    {
        proof {
            use_type_invariant(&*self);
        }
        let ghost m0 = self@;
        let mut entries: Vec<(String, String)> = Vec::new();
        std::mem::swap(&mut entries, &mut self.entries);
        if let Some(i) = Self::find_index(&entries, &key) {
            let ghost before = entries@;
            entries.remove(i);
            proof {
                lemma_map_of_remove_at(before, i as int);
            }
        }
        let ghost trimmed = entries@;
        entries.push((key, value));
        proof {
            assert(entries@.drop_last() =~= trimmed);
            assert forall|a: int, b: int|
                0 <= a < b < entries@.len() implies entries@[a].0@ != entries@[b].0@ by {
                if b < entries@.len() - 1 {
                    assert(entries@[a] == trimmed[a]);
                    assert(entries@[b] == trimmed[b]);
                } else {
                    assert(entries@[a] == trimmed[a]);
                }
            }
            assert(map_of(entries@) == map_of(trimmed).insert(key@, value@));
            assert(map_of(entries@) =~= m0.insert(key@, value@));
        }
        self.entries = entries;
    }

    /// Removes the key and its value from the store. Removing a key that is
    /// not present is a no-op, not an error.
    pub fn remove(&mut self, key: String)
        ensures
            final(self)@ == old(self)@.remove(key@),
    {
        proof {
            use_type_invariant(&*self);
        }
        let mut entries: Vec<(String, String)> = Vec::new();
        std::mem::swap(&mut entries, &mut self.entries);
        match Self::find_index(&entries, &key) {
            Some(i) => {
                let ghost before = entries@;
                entries.remove(i);
                proof {
                    lemma_map_of_remove_at(before, i as int);
                }
            },
            None => {
                proof {
                    lemma_map_of_contains(entries@, key@);
                    assert(map_of(entries@).remove(key@) =~= map_of(entries@));
                }
            },
        }
        self.entries = entries;
    }
}

/// After `set(k, v)`, `get(k)` returns `v`.
pub proof fn lemma_get_after_set(m: Map<Seq<char>, Seq<char>>, k: Seq<char>, v: Seq<char>)
    ensures
        spec_get(m.insert(k, v), k) == Some(v),
{
}

/// Last write wins: after `set(k, v1)` then `set(k, v2)`, the store is as if
/// only `set(k, v2)` had happened, so `get(k)` returns `v2`.
pub proof fn lemma_set_last_write_wins(
    m: Map<Seq<char>, Seq<char>>,
    k: Seq<char>,
    v1: Seq<char>,
    v2: Seq<char>,
)
    ensures
        m.insert(k, v1).insert(k, v2) == m.insert(k, v2),
        spec_get(m.insert(k, v1).insert(k, v2), k) == Some(v2),
{
    assert(m.insert(k, v1).insert(k, v2) =~= m.insert(k, v2));
}

/// On a freshly created store, `get(k)` returns absent for every key.
pub proof fn lemma_get_on_empty(k: Seq<char>)
    ensures
        spec_get(Map::<Seq<char>, Seq<char>>::empty(), k) is None,
{
}

/// Removing a key that is not present leaves the store's observable state
/// unchanged; in particular a key never set can be removed with no effect.
pub proof fn lemma_remove_absent_is_noop(m: Map<Seq<char>, Seq<char>>, k: Seq<char>)
    requires
        !m.contains_key(k),
    ensures
        m.remove(k) == m,
{
    assert(m.remove(k) =~= m);
}

/// After `set(k, v)` then `remove(k)`, `get(k)` returns absent.
pub proof fn lemma_get_after_set_then_remove(
    m: Map<Seq<char>, Seq<char>>,
    k: Seq<char>,
    v: Seq<char>,
)
    ensures
        spec_get(m.insert(k, v).remove(k), k) is None,
{
}

/// `get` is idempotent: with no intervening mutation, any two results of
/// `get` on one store and key hold the same text.
pub proof fn lemma_get_idempotent(
    m: Map<Seq<char>, Seq<char>>,
    k: Seq<char>,
    r1: Option<String>,
    r2: Option<String>,
)
    requires
        r1.deep_view() == spec_get(m, k),
        r2.deep_view() == spec_get(m, k),
    ensures
        r1.deep_view() == r2.deep_view(),
{
}

} // verus!

//! A map from names to values that is walked in the order of the names.
use crate::text::{is_less, less, same};
use vstd::prelude::*;

verus! {

broadcast use vstd::seq::group_seq_axioms;

/// The entries of a map, in the order of their names.
pub type Entries<V> = Seq<(Seq<char>, V)>;

/// Whether the names go up strictly: each name occurs once.
pub open spec fn keys_increase<V>(m: Entries<V>) -> bool {
    forall|i: int, j: int| 0 <= i < j < m.len() ==> less(#[trigger] m[i].0, #[trigger] m[j].0)
}

/// Whether entry `i` is the one of name `key`.
pub open spec fn is_entry<V>(m: Entries<V>, key: Seq<char>, i: int) -> bool {
    0 <= i < m.len() && m[i].0 == key
}

/// Whether there is an entry of that name.
pub open spec fn has_key<V>(m: Entries<V>, key: Seq<char>) -> bool {
    exists|i: int| #[trigger] is_entry(m, key, i)
}

/// The value of that name.
pub open spec fn lookup<V>(m: Entries<V>, key: Seq<char>) -> Option<V> {
    if has_key(m, key) {
        Some(m[choose|i: int| #[trigger] is_entry(m, key, i)].1)
    } else {
        None
    }
}

/// How many of the names stand before `key`.
pub open spec fn rank<V>(m: Entries<V>, key: Seq<char>) -> int
    decreases m.len(),
{
    if m.len() == 0 {
        0
    } else if less(m.last().0, key) {
        m.len() as int
    } else {
        rank(m.drop_last(), key)
    }
}

/// The entries with the value of `key` set to `value`.
pub open spec fn inserted<V>(m: Entries<V>, key: Seq<char>, value: V) -> Entries<V> {
    if has_key(m, key) {
        m.update(choose|i: int| #[trigger] is_entry(m, key, i), (key, value))
    } else {
        m.insert(rank(m, key), (key, value))
    }
}

/// Where names go up, a name has one entry.
pub proof fn lemma_entry_unique<V>(m: Entries<V>, key: Seq<char>, i: int)
    requires
        keys_increase(m),
        is_entry(m, key, i),
    ensures
        has_key(m, key),
        (choose|j: int| #[trigger] is_entry(m, key, j)) == i,
        lookup(m, key) == Some(m[i].1),
{
    let j = choose|j: int| #[trigger] is_entry(m, key, j);
    assert(is_entry(m, key, j));
    crate::text::lemma_less_irreflexive(key);
    if i < j {
        assert(less(m[i].0, m[j].0));
    } else if j < i {
        assert(less(m[j].0, m[i].0));
    }
}

/// The rank of a name parts the names before it from those behind it.
pub proof fn lemma_rank<V>(m: Entries<V>, key: Seq<char>)
    requires
        keys_increase(m),
    ensures
        0 <= rank(m, key) <= m.len(),
        forall|i: int| 0 <= i < rank(m, key) ==> less(#[trigger] m[i].0, key),
        forall|i: int| rank(m, key) <= i < m.len() ==> !less(#[trigger] m[i].0, key),
    decreases m.len(),
{
    if m.len() > 0 {
        let last = m.last();
        if less(last.0, key) {
            assert forall|i: int| 0 <= i < m.len() implies less(#[trigger] m[i].0, key) by {
                if i < m.len() - 1 {
                    assert(less(m[i].0, m[m.len() - 1].0));
                    crate::text::lemma_less_transitive(m[i].0, last.0, key);
                }
            }
        } else {
            let init = m.drop_last();
            assert(keys_increase(init)) by {
                assert forall|i: int, j: int| 0 <= i < j < init.len() implies less(
                    #[trigger] init[i].0,
                    #[trigger] init[j].0,
                ) by {
                    assert(less(m[i].0, m[j].0));
                }
            }
            lemma_rank(init, key);
            assert forall|i: int| 0 <= i < rank(m, key) implies less(#[trigger] m[i].0, key) by {
                assert(less(init[i].0, key));
            }
            assert forall|i: int| rank(m, key) <= i < m.len() implies !less(
                #[trigger] m[i].0,
                key,
            ) by {
                if i < m.len() - 1 {
                    assert(!less(init[i].0, key));
                }
            }
        }
    }
}

/// A map keeps its order when a value is set, holds that value after, and keeps
/// every other one.
pub proof fn lemma_inserted<V>(m: Entries<V>, key: Seq<char>, value: V)
    requires
        keys_increase(m),
    ensures
        keys_increase(inserted(m, key, value)),
        lookup(inserted(m, key, value), key) == Some(value),
        forall|other: Seq<char>|
            other != key ==> #[trigger] lookup(inserted(m, key, value), other) == lookup(m, other),
{
    let n = inserted(m, key, value);
    if has_key(m, key) {
        let at = choose|i: int| #[trigger] is_entry(m, key, i);
        assert(is_entry(m, key, at));
        assert forall|i: int, j: int| 0 <= i < j < n.len() implies less(
            #[trigger] n[i].0,
            #[trigger] n[j].0,
        ) by {
            assert(less(m[i].0, m[j].0));
        }
        assert(is_entry(n, key, at));
        lemma_entry_unique(n, key, at);
        assert forall|other: Seq<char>| other != key implies #[trigger] lookup(n, other) == lookup(
            m,
            other,
        ) by {
            if has_key(m, other) {
                let i = choose|i: int| #[trigger] is_entry(m, other, i);
                assert(is_entry(m, other, i));
                assert(is_entry(n, other, i));
                lemma_entry_unique(n, other, i);
            } else if has_key(n, other) {
                let i = choose|i: int| #[trigger] is_entry(n, other, i);
                assert(is_entry(m, other, i));
            }
        }
    } else {
        lemma_rank(m, key);
        let r = rank(m, key);
        assert forall|i: int| r <= i < m.len() implies less(key, #[trigger] m[i].0) by {
            assert(!is_entry(m, key, i));
            crate::text::lemma_less_total(m[i].0, key);
        }
        assert forall|i: int, j: int| 0 <= i < j < n.len() implies less(
            #[trigger] n[i].0,
            #[trigger] n[j].0,
        ) by {
            let i0 = if i < r {
                i
            } else {
                i - 1
            };
            let j0 = if j < r {
                j
            } else {
                j - 1
            };
            if i == r {
                assert(less(key, m[j0].0));
            } else if j == r {
                assert(less(m[i0].0, key));
            } else {
                assert(less(m[i0].0, m[j0].0));
            }
        }
        assert(is_entry(n, key, r));
        lemma_entry_unique(n, key, r);
        assert forall|other: Seq<char>| other != key implies #[trigger] lookup(n, other) == lookup(
            m,
            other,
        ) by {
            if has_key(m, other) {
                let i = choose|i: int| #[trigger] is_entry(m, other, i);
                assert(is_entry(m, other, i));
                let k = if i < r {
                    i
                } else {
                    i + 1
                };
                assert(is_entry(n, other, k));
                lemma_entry_unique(n, other, k);
            } else if has_key(n, other) {
                let i = choose|i: int| #[trigger] is_entry(n, other, i);
                let k = if i < r {
                    i
                } else {
                    i - 1
                };
                assert(is_entry(m, other, k));
            }
        }
    }
}

/// A map from names to values, walked in the order of the names.
#[derive(Debug)]
pub struct NameMap<T: View> {
    entries: Vec<(String, T)>,
}

impl<T: View> View for NameMap<T> {
    type V = Entries<T::V>;

    closed spec fn view(&self) -> Entries<T::V> {
        self.entries@.map_values(|e: (String, T)| (e.0@, e.1@))
    }
}

impl<T: View> NameMap<T> {
    #[verifier::type_invariant]
    spec fn in_order(self) -> bool {
        keys_increase(self@)
    }

    /// A map without entries.
    pub fn new() -> (r: Self)
        ensures
            r@ == Entries::<T::V>::empty(),
    {
        let r = NameMap { entries: Vec::new() };
        assert(r@ =~= Entries::<T::V>::empty());
        r
    }

    /// How many entries there are. The entries of a map are always in order.
    pub fn len(&self) -> (r: usize)
        ensures
            r == self@.len(),
            keys_increase(self@),
    {
        proof {
            use_type_invariant(self);
        }
        self.entries.len()
    }

    /// The name of entry `i`.
    pub fn key_at(&self, i: usize) -> (r: &String)
        requires
            i < self@.len(),
        ensures
            r@ == self@[i as int].0,
    {
        &self.entries[i].0
    }

    /// The value of entry `i`.
    pub fn value_at(&self, i: usize) -> (r: &T)
        requires
            i < self@.len(),
        ensures
            r@ == self@[i as int].1,
    {
        &self.entries[i].1
    }

    /// The place of the entry of that name.
    pub fn find(&self, key: &str) -> (r: Option<usize>)
        ensures
            keys_increase(self@),
            match r {
                Some(i) => is_entry(self@, key@, i as int),
                None => !has_key(self@, key@),
            },
    {
        proof {
            use_type_invariant(self);
        }
        let mut i: usize = 0;
        while i < self.entries.len()
            invariant
                i <= self@.len(),
                self@.len() == self.entries@.len(),
                keys_increase(self@),
                forall|j: int| 0 <= j < i ==> !#[trigger] is_entry(self@, key@, j),
            decreases self.entries@.len() - i,
        {
            if same(self.entries[i].0.as_str(), key) {
                return Some(i);
            }
            i += 1;
        }
        None
    }

    /// The value of that name.
    pub fn get(&self, key: &str) -> (r: Option<&T>)
        ensures
            match r {
                Some(v) => lookup(self@, key@) == Some(v@),
                None => lookup(self@, key@) is None,
            },
    {
        match self.find(key) {
            Some(i) => {
                proof {
                    lemma_entry_unique(self@, key@, i as int);
                }
                Some(&self.entries[i].1)
            },
            None => None,
        }
    }

    /// How many of the names stand before `key`.
    fn rank_of(&self, key: &str) -> (r: usize)
        ensures
            r == rank(self@, key@),
            r <= self@.len(),
    {
        let ghost m = self@;
        let mut i: usize = self.entries.len();
        assert(m.take(i as int) =~= m);
        while i > 0 && !is_less(self.entries[i - 1].0.as_str(), key)
            invariant
                i <= m.len(),
                m == self@,
                m.len() == self.entries@.len(),
                rank(m, key@) == rank(m.take(i as int), key@),
            decreases i,
        {
            assert(m.take(i as int).drop_last() =~= m.take(i - 1));
            i -= 1;
        }
        if i > 0 {
            assert(m.take(i as int).last() == m[i - 1]);
        }
        i
    }

    /// Sets the value of a name.
    pub fn insert(self, key: String, value: T) -> (r: Self)
        ensures
            r@ == inserted(self@, key@, value@),
            keys_increase(r@),
    {
        let found = self.find(key.as_str());
        let at: usize = self.rank_of(key.as_str());
        let ghost m = self@;
        let mut entries = self.entries;
        match found {
            Some(i) => {
                proof {
                    lemma_entry_unique(m, key@, i as int);
                }
                entries.set(i, (key, value));
                assert(entries@.map_values(|e: (String, T)| (e.0@, e.1@)) =~= m.update(
                    i as int,
                    (key@, value@),
                ));
            },
            None => {
                entries.insert(at, (key, value));
                assert(entries@.map_values(|e: (String, T)| (e.0@, e.1@)) =~= m.insert(
                    at as int,
                    (key@, value@),
                ));
            },
        }
        assert(keys_increase(inserted(m, key@, value@))) by {
            lemma_inserted(m, key@, value@);
        }
        NameMap { entries }
    }

    /// Sets the value of entry `i`, under the name that it has.
    pub fn replace_at(self, i: usize, value: T) -> (r: Self)
        requires
            i < self@.len(),
        ensures
            r@ == self@.update(i as int, (self@[i as int].0, value@)),
            keys_increase(r@),
    {
        proof {
            use_type_invariant(&self);
        }
        let ghost m = self@;
        let mut entries = self.entries;
        let key = entries[i].0.clone();
        entries.set(i, (key, value));
        proof {
            let n = entries@.map_values(|e: (String, T)| (e.0@, e.1@));
            assert(n =~= m.update(i as int, (m[i as int].0, value@)));
            assert forall|a: int, b: int| 0 <= a < b < n.len() implies less(
                #[trigger] n[a].0,
                #[trigger] n[b].0,
            ) by {
                assert(less(m[a].0, m[b].0));
            }
        }
        NameMap { entries }
    }
}

} // verus!

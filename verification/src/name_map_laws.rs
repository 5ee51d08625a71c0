//! What is found in a map, entry by entry.
use crate::name_map::{
    has_key, inserted, is_entry, keys_increase, lemma_entry_unique, lemma_inserted, lookup, Entries,
};
use vstd::prelude::*;

verus! {

broadcast use vstd::seq::group_seq_axioms;

/// Whether some entry has this name and this value.
pub open spec fn holds<V>(m: Entries<V>, key: Seq<char>, value: V) -> bool {
    exists|i: int| 0 <= i < m.len() && #[trigger] m[i] == (key, value)
}

/// Whether some entry has this name.
pub open spec fn names<V>(m: Entries<V>, key: Seq<char>) -> bool {
    exists|i: int| 0 <= i < m.len() && (#[trigger] m[i]).0 == key
}

/// In a map in order, what is found under a name is the value of the one entry of
/// that name, and nothing is found where there is none.
pub proof fn lemma_looked_up<V>(m: Entries<V>, key: Seq<char>)
    requires
        keys_increase(m),
    ensures
        match lookup(m, key) {
            Some(value) => holds(m, key, value),
            None => !names(m, key),
        },
        forall|i: int| 0 <= i < m.len() && (#[trigger] m[i]).0 == key ==> lookup(m, key) == Some(
            m[i].1,
        ),
{
    if has_key(m, key) {
        let i = choose|i: int| #[trigger] is_entry(m, key, i);
        assert(m[i] == (key, lookup(m, key)->0));
    } else {
        assert forall|i: int| 0 <= i < m.len() implies (#[trigger] m[i]).0 != key by {
            assert(!is_entry(m, key, i));
        }
    }
    assert forall|i: int| 0 <= i < m.len() && (#[trigger] m[i]).0 == key implies lookup(m, key)
        == Some(m[i].1) by {
        assert(is_entry(m, key, i));
        lemma_entry_unique(m, key, i);
    }
}

/// A map in order in which a value is set holds that value under its name, and under
/// every other name what it held before.
pub proof fn lemma_set<V>(m: Entries<V>, key: Seq<char>, value: V)
    requires
        keys_increase(m),
    ensures
        keys_increase(inserted(m, key, value)),
        forall|k: Seq<char>, v: V| #[trigger]
            holds(inserted(m, key, value), k, v) <==> if k == key {
                v == value
            } else {
                holds(m, k, v)
            },
{
    let n = inserted(m, key, value);
    lemma_inserted(m, key, value);
    assert forall|k: Seq<char>, v: V| #[trigger] holds(n, k, v) <==> if k == key {
        v == value
    } else {
        holds(m, k, v)
    } by {
        lemma_looked_up(n, k);
        lemma_looked_up(m, k);
        if holds(n, k, v) {
            let i = choose|i: int| 0 <= i < n.len() && #[trigger] n[i] == (k, v);
            assert(n[i].0 == k);
            assert(lookup(n, k) == Some(v));
        }
        if holds(m, k, v) {
            let i = choose|i: int| 0 <= i < m.len() && #[trigger] m[i] == (k, v);
            assert(m[i].0 == k);
            assert(lookup(m, k) == Some(v));
        }
    }
}

} // verus!

use vstd::prelude::*;
use crate::cache_map::CacheMap;
use crate::cache_map::cached;
use crate::cache_map::cached_value;
use crate::cache_map::distinct_keys;
use crate::cache_map::lemma_entries_map_contains;
use crate::cache_map::lemma_entries_map_index;

verus! {

/// Idempotent population: once a get-or-insert has bound a key, a second
/// get-or-insert for the same key changes nothing and hands back the value
/// the first one did, whatever candidate value the second one brings.
pub proof fn lemma_idempotent_population<K, V>(m: Map<K, V>, k: K, v1: V, v2: V)
    ensures
        cached(cached(m, k, v1), k, v2) == cached(m, k, v1),
        cached_value(cached(m, k, v1), k, v2) == cached_value(m, k, v1),
{
}

/// Key isolation: a get-or-insert under one key neither adds, removes nor
/// changes the binding of any other key, so what a get-or-insert for the
/// other key hands back is unaffected.
pub proof fn lemma_key_isolation<K, V>(m: Map<K, V>, ka: K, kb: K, va: V, vb: V)
    requires
        ka != kb,
    ensures
        cached(m, ka, va).contains_key(kb) == m.contains_key(kb),
        cached_value(cached(m, ka, va), kb, vb) == cached_value(m, kb, vb),
{
}

/// The map after get-or-inserts for each pair of `s`, first to last.
pub open spec fn cached_all<K, V>(m: Map<K, V>, s: Seq<(K, V)>) -> Map<K, V>
    decreases s.len(),
{
    if s.len() == 0 {
        m
    } else {
        cached_all(cached(m, s[0].0, s[0].1), s.skip(1))
    }
}

/// Handle stability: a binding, once present, survives any number of later
/// get-or-inserts unchanged, so a value handed out for a key stays the value
/// of that key however much the map grows.
pub proof fn lemma_handle_stability<K, V>(m: Map<K, V>, k: K, s: Seq<(K, V)>)
    requires
        m.contains_key(k),
    ensures
        cached_all(m, s).contains_key(k),
        cached_all(m, s)[k] == m[k],
    decreases s.len(),
{
    if s.len() > 0 {
        lemma_handle_stability(cached(m, s[0].0, s[0].1), k, s.skip(1));
    }
}

/// Existence check consistency: no key is present in an empty map, and a key
/// is present as soon as a get-or-insert for it has run.
pub proof fn lemma_existence_check<K, V>(m: Map<K, V>, k: K, v: V)
    ensures
        !Map::<K, V>::empty().contains_key(k),
        cached(m, k, v).contains_key(k),
{
}

/// Iteration completeness: the entries of a well-formed map hold exactly its
/// bindings, each one once — every entry is a binding of the map, and every
/// binding of the map stands at some entry.
pub proof fn lemma_iteration_complete<K, V>(m: &CacheMap<K, V>)
    requires
        m.wf(),
    ensures
        distinct_keys(m.entries()),
        forall|i: int|
            0 <= i < m.entries().len() ==> m@.contains_key(#[trigger] m.entries()[i].0)
                && m@[m.entries()[i].0] == m.entries()[i].1,
        forall|k: K|
            #[trigger] m@.contains_key(k) ==> exists|i: int|
                0 <= i < m.entries().len() && m.entries()[i] == (k, m@[k]),
{
    m.lemma_view_entries();
    m.lemma_wf_distinct();
    let es = m.entries();
    assert forall|i: int|
        0 <= i < es.len() implies m@.contains_key(#[trigger] es[i].0) && m@[es[i].0]
        == es[i].1 by {
        lemma_entries_map_index(es, i);
    }
    assert forall|k: K| #[trigger] m@.contains_key(k) implies exists|i: int|
        0 <= i < es.len() && es[i] == (k, m@[k]) by {
        lemma_entries_map_contains(es, k);
        let i = choose|i: int| 0 <= i < es.len() && es[i].0 == k;
        lemma_entries_map_index(es, i);
        assert(es[i] == (k, m@[k]));
    }
}

} // verus!

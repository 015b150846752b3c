use vstd::prelude::*;
use vstd::std_specs::cmp::PartialEqSpec;

verus! {

/// The keys of the map are looked up with `==` of the key type, while the
/// contracts speak of structural equality. The two must agree: `PartialEq`
/// must obey its specification, and that specification must be equality.
/// Integers, `bool`, tuples of them and the like satisfy this.
pub open spec fn keys_obey_eq<K: PartialEq>() -> bool {
    &&& K::obeys_eq_spec()
    &&& forall|x: K, y: K| #[trigger] x.eq_spec(&y) <==> x == y
}

/// The map described by a sequence of (key, value) entries: a later entry
/// for a key overrides an earlier one.
pub open spec fn entries_map<K, V>(s: Seq<(K, V)>) -> Map<K, V>
    decreases s.len(),
{
    if s.len() == 0 {
        Map::empty()
    } else {
        entries_map(s.drop_last()).insert(s.last().0, s.last().1)
    }
}

/// No key appears twice in the sequence of entries.
pub open spec fn distinct_keys<K, V>(s: Seq<(K, V)>) -> bool {
    forall|i: int, j: int| 0 <= i < j < s.len() ==> s[i].0 != s[j].0
}

/// The state of the map after a get-or-insert for `k` whose candidate value
/// is `v`: an existing entry is kept, an absent key is bound to `v`.
pub open spec fn cached<K, V>(m: Map<K, V>, k: K, v: V) -> Map<K, V> {
    if m.contains_key(k) {
        m
    } else {
        m.insert(k, v)
    }
}

/// The value a get-or-insert for `k` hands back when the candidate value is
/// `v`: the value already published for `k`, or else `v` itself.
pub open spec fn cached_value<K, V>(m: Map<K, V>, k: K, v: V) -> V {
    if m.contains_key(k) {
        m[k]
    } else {
        v
    }
}

/// A key occurs in `entries_map(s)` exactly when some entry of `s` holds it.
pub proof fn lemma_entries_map_contains<K, V>(s: Seq<(K, V)>, k: K)
    ensures
        entries_map(s).contains_key(k) <==> exists|i: int| 0 <= i < s.len() && s[i].0 == k,
    decreases s.len(),
{
    if s.len() > 0 {
        lemma_entries_map_contains(s.drop_last(), k);
        if s.last().0 == k {
            assert(s[s.len() - 1].0 == k);
        } else {
            if entries_map(s).contains_key(k) {
                let i = choose|i: int| 0 <= i < s.drop_last().len() && s.drop_last()[i].0 == k;
                assert(s[i].0 == k);
            }
            if exists|i: int| 0 <= i < s.len() && s[i].0 == k {
                let i = choose|i: int| 0 <= i < s.len() && s[i].0 == k;
                assert(i < s.len() - 1);
                assert(s.drop_last()[i].0 == k);
            }
        }
    }
}

/// With distinct keys, the entry at index `i` gives the binding of its key.
pub proof fn lemma_entries_map_index<K, V>(s: Seq<(K, V)>, i: int)
    requires
        distinct_keys(s),
        0 <= i < s.len(),
    ensures
        entries_map(s).contains_key(s[i].0),
        entries_map(s)[s[i].0] == s[i].1,
    decreases s.len(),
{
    if i < s.len() - 1 {
        assert(distinct_keys(s.drop_last())) by {
            assert(forall|p: int, q: int|
                0 <= p < q < s.drop_last().len() ==> s.drop_last()[p] == s[p]
                    && s.drop_last()[q] == s[q]);
        }
        lemma_entries_map_index(s.drop_last(), i);
        assert(s.drop_last()[i] == s[i]);
        assert(s.last().0 != s[i].0);
    }
}

/// Appending an entry inserts its binding over the described map.
pub proof fn lemma_entries_map_push<K, V>(s: Seq<(K, V)>, p: (K, V))
    ensures
        entries_map(s.push(p)) == entries_map(s).insert(p.0, p.1),
{
    assert(s.push(p).drop_last() =~= s);
    assert(s.push(p).last() == p);
}

/// A non-empty sequence of entries describes the get-or-insert of its first
/// entry into the map described by the rest.
pub proof fn lemma_entries_map_first<K, V>(s: Seq<(K, V)>)
    requires
        s.len() > 0,
    ensures
        entries_map(s) == cached(entries_map(s.skip(1)), s[0].0, s[0].1),
    decreases s.len(),
{
    let t = s.skip(1);
    let k = s[0].0;
    let v = s[0].1;
    if s.len() == 1 {
        assert(t =~= Seq::<(K, V)>::empty());
        assert(s.drop_last() =~= Seq::<(K, V)>::empty());
        assert(s.last() == s[0]);
    } else {
        let dl = s.drop_last();
        let lst = s.last();
        lemma_entries_map_first(dl);
        assert(dl[0] == s[0]);
        assert(dl.skip(1) =~= t.drop_last());
        assert(t.last() == lst);
        let a = entries_map(t.drop_last());
        assert(entries_map(s) == cached(a, k, v).insert(lst.0, lst.1));
        assert(entries_map(t) == a.insert(lst.0, lst.1));
        if a.contains_key(k) {
            assert(a.insert(lst.0, lst.1).contains_key(k));
        } else {
            if lst.0 == k {
                assert(a.insert(k, v).insert(lst.0, lst.1) =~= a.insert(lst.0, lst.1));
            } else {
                assert(!a.insert(lst.0, lst.1).contains_key(k));
                assert(a.insert(k, v).insert(lst.0, lst.1) =~= a.insert(lst.0, lst.1).insert(
                    k,
                    v,
                ));
            }
        }
    }
}

/// An insert-only map for caching the result of functions.
///
/// Each key is bound at most once; a later request for a bound key hands back
/// the value published first and leaves the map unchanged.
pub struct CacheMap<K, V> {
    pairs: Vec<(K, V)>,
}

impl<K, V> View for CacheMap<K, V> {
    type V = Map<K, V>;

    closed spec fn view(&self) -> Map<K, V> {
        entries_map(self.pairs@)
    }
}

impl<K, V> CacheMap<K, V> {
    /// The entries of the map, in the order in which they were inserted.
    pub closed spec fn entries(&self) -> Seq<(K, V)> {
        self.pairs@
    }

    /// Each key is held by at most one entry.
    pub closed spec fn wf(&self) -> bool {
        distinct_keys(self.pairs@)
    }

    /// The map is the one its entries describe.
    pub proof fn lemma_view_entries(&self)
        ensures
            self@ == entries_map(self.entries()),
    {
    }

    /// Well-formedness is exactly distinctness of the entries' keys.
    pub proof fn lemma_wf_distinct(&self)
        ensures
            self.wf() <==> distinct_keys(self.entries()),
    {
    }
}

impl<K: Eq + std::hash::Hash, V> CacheMap<K, V> {
    /// Creates a new CacheMap.
    pub fn new() -> (r: Self)
        ensures
            r@ == Map::<K, V>::empty(),
            r.entries() == Seq::<(K, V)>::empty(),
            r.wf(),
    {
        CacheMap { pairs: Vec::new() }
    }

    /// The index of the entry holding the key, if one does.
    fn find_index(&self, key: &K) -> (r: Option<usize>)
        requires
            keys_obey_eq::<K>(),
        ensures
            match r {
                Some(i) => i < self.pairs@.len() && self.pairs@[i as int].0 == *key,
                None => forall|j: int| 0 <= j < self.pairs@.len() ==> self.pairs@[j].0 != *key,
            },
    {
        let n = self.pairs.len();
        let mut i: usize = 0;
        while i < n
            invariant
                keys_obey_eq::<K>(),
                n == self.pairs@.len(),
                i <= n,
                forall|j: int| 0 <= j < i ==> self.pairs@[j].0 != *key,
            decreases n - i,
        {
            if self.pairs[i].0.eq(key) {
                return Some(i);
            }
            i += 1;
        }
        None
    }

    /// Fetch the value associated with the key, or run the provided function
    /// to insert one.
    ///
    /// The function is run only when the key is absent, so a value, once
    /// published for a key, is never replaced: a later call for the same key
    /// hands back the published value and leaves the map unchanged, whatever
    /// function it brings.
    pub fn cache<F: FnOnce() -> V>(&mut self, key: K, f: F) -> (r: &V)
        requires
            keys_obey_eq::<K>(),
            old(self).wf(),
            !old(self)@.contains_key(key) ==> call_requires(f, ()),
        ensures
            final(self).wf(),
            final(self)@ == cached(old(self)@, key, *r),
            final(self)@.contains_key(key),
            final(self)@[key] == *r,
            old(self)@.contains_key(key) ==> *r == old(self)@[key]
                && final(self).entries() == old(self).entries(),
            !old(self)@.contains_key(key) ==> call_ensures(f, (), *r)
                && final(self).entries() == old(self).entries().push((key, *r)),
    {
        proof {
            lemma_entries_map_contains(self.pairs@, key);
        }
        if let Some(i) = self.find_index(&key) {
            proof {
                lemma_entries_map_index(self.pairs@, i as int);
            }
            return &self.pairs[i].1;
        }
        let v = f();
        proof {
            lemma_entries_map_push(self.pairs@, (key, v));
        }
        self.pairs.push((key, v));
        let n = self.pairs.len();
        &self.pairs[n - 1].1
    }

    /// Fetch the value associated with the key, or insert a default value.
    pub fn cache_default(&mut self, key: K) -> (r: &V) where V: Default
        requires
            keys_obey_eq::<K>(),
            old(self).wf(),
        ensures
            final(self).wf(),
            final(self)@ == cached(old(self)@, key, *r),
            final(self)@.contains_key(key),
            final(self)@[key] == *r,
            old(self)@.contains_key(key) ==> *r == old(self)@[key]
                && final(self).entries() == old(self).entries(),
            !old(self)@.contains_key(key) ==> V::default.ensures((), *r)
                && final(self).entries() == old(self).entries().push((key, *r)),
    {
        self.cache(
            key,
            (|| -> (v: V)
                ensures
                    V::default.ensures((), v),
                { V::default() }),
        )
    }

    /// Bind the key to the value if the key is absent; an existing entry for
    /// it is kept and the value dropped.
    fn insert_if_absent(&mut self, key: K, val: V)
        requires
            keys_obey_eq::<K>(),
            old(self).wf(),
        ensures
            final(self).wf(),
            final(self)@ == cached(old(self)@, key, val),
    {
        proof {
            lemma_entries_map_contains(self.pairs@, key);
        }
        if let Some(i) = self.find_index(&key) {
            proof {
                lemma_entries_map_index(self.pairs@, i as int);
            }
        } else {
            proof {
                lemma_entries_map_push(self.pairs@, (key, val));
            }
            self.pairs.push((key, val));
        }
    }

    /// Builds a map from a sequence of pairs; for keys given twice, the later
    /// pair wins, and each key of the result is bound once.
    pub fn from_pairs(pairs: Vec<(K, V)>) -> (r: Self)
        requires
            keys_obey_eq::<K>(),
        ensures
            r.wf(),
            r@ == entries_map(pairs@),
    {
        let ghost all = pairs@;
        let mut rest = pairs;
        let mut m = Self::new();
        proof {
            assert(all.take(all.len() as int) =~= all);
            assert(all.skip(all.len() as int) =~= Seq::<(K, V)>::empty());
        }
        while rest.len() > 0
            invariant
                keys_obey_eq::<K>(),
                m.wf(),
                rest@.len() <= all.len(),
                rest@ == all.take(rest@.len() as int),
                m@ == entries_map(all.skip(rest@.len() as int)),
            decreases rest.len(),
        {
            let ghost j: int = rest@.len() - 1;
            let p = rest.pop().unwrap();
            proof {
                assert(p == all[j]);
                assert(rest@ =~= all.take(j));
                lemma_entries_map_first(all.skip(j));
                assert(all.skip(j)[0] == all[j]);
                assert(all.skip(j).skip(1) =~= all.skip(j + 1));
            }
            m.insert_if_absent(p.0, p.1);
        }
        proof {
            assert(all.skip(0) =~= all);
        }
        m
    }

    /// Return an iterator over the map.
    pub fn iter<'a>(&'a self) -> (it: Iter<'a, K, V>)
        ensures
            it.entries() == self.entries(),
            it.pos() == 0,
    {
        Iter { map: self, pos: 0 }
    }

    /// Consume the map and hand its entries out one by one.
    pub fn into_iter(self) -> (it: IntoIter<K, V>)
        ensures
            it.remaining() == self.entries(),
    {
        IntoIter { rest: self.pairs }
    }

    /// Return whether the map contains the given key.
    pub fn contains_key(&self, key: &K) -> (r: bool)
        requires
            keys_obey_eq::<K>(),
        ensures
            r == self@.contains_key(*key),
    {
        let found = self.find_index(key);
        proof {
            lemma_entries_map_contains(self.pairs@, *key);
            if found is Some {
                let i = found->Some_0;
                assert(self.pairs@[i as int].0 == *key);
            }
        }
        found.is_some()
    }
}

/// Relies on std's Arc::clone: the returned handle shares the same
/// allocation, so it is the same value.
#[verifier::external_body]
fn arc_clone<T>(a: &std::sync::Arc<T>) -> (r: std::sync::Arc<T>)
    ensures
        r == *a,
{
    std::sync::Arc::clone(a)
}

impl<K: Eq + std::hash::Hash, W> CacheMap<K, std::sync::Arc<W>> {
    /// Fetch the shared value associated with the key, or run the provided
    /// function to insert one.
    ///
    /// The shared-ownership form of the get-or-insert: the map keeps one
    /// share of the slot and the caller receives a share of its own, which
    /// stays valid however long it is held, even past the map itself.
    pub fn cache_arc<F: FnOnce() -> std::sync::Arc<W>>(&mut self, key: K, f: F) -> (r: std::sync::Arc<W>)
        requires
            keys_obey_eq::<K>(),
            old(self).wf(),
            !old(self)@.contains_key(key) ==> call_requires(f, ()),
        ensures
            final(self).wf(),
            final(self)@ == cached(old(self)@, key, r),
            final(self)@.contains_key(key),
            final(self)@[key] == r,
            old(self)@.contains_key(key) ==> r == old(self)@[key]
                && final(self).entries() == old(self).entries(),
            !old(self)@.contains_key(key) ==> call_ensures(f, (), r)
                && final(self).entries() == old(self).entries().push((key, r)),
    {
        let v = self.cache(key, f);
        arc_clone(v)
    }
}

impl<K: Eq + std::hash::Hash, V> Default for CacheMap<K, V> {
    /// An empty map.
    fn default() -> (r: Self)
        ensures
            r@ == Map::<K, V>::empty(),
            r.entries() == Seq::<(K, V)>::empty(),
            r.wf(),
    {
        CacheMap { pairs: Vec::new() }
    }
}

/// A walk over a snapshot of the map's entries, in insertion order.
///
/// It borrows the map for its whole lifetime, so no entry can be added while
/// it is alive, and the snapshot is the map itself.
pub struct Iter<'a, K, V> {
    map: &'a CacheMap<K, V>,
    pos: usize,
}

impl<'a, K, V> Iter<'a, K, V> {
    /// The snapshot being walked.
    pub closed spec fn entries(&self) -> Seq<(K, V)> {
        self.map.entries()
    }

    /// How many entries have been handed out so far.
    pub closed spec fn pos(&self) -> int {
        self.pos as int
    }

    /// The next entry of the snapshot, or `None` after the last.
    pub fn next(&mut self) -> (r: Option<(&'a K, &'a V)>)
        ensures
            final(self).entries() == old(self).entries(),
            old(self).pos() < old(self).entries().len() ==> {
                &&& final(self).pos() == old(self).pos() + 1
                &&& r matches Some(kv) && *kv.0 == old(self).entries()[old(self).pos()].0
                    && *kv.1 == old(self).entries()[old(self).pos()].1
            },
            old(self).pos() >= old(self).entries().len() ==> r is None && final(self).pos()
                == old(self).pos(),
    {
        if self.pos < self.map.pairs.len() {
            let i = self.pos;
            self.pos = self.pos + 1;
            let p = &self.map.pairs[i];
            Some((&p.0, &p.1))
        } else {
            None
        }
    }
}

/// A draining walk over the entries of a consumed map, in insertion order.
pub struct IntoIter<K, V> {
    rest: Vec<(K, V)>,
}

impl<K, V> IntoIter<K, V> {
    /// The entries not yet handed out.
    pub closed spec fn remaining(&self) -> Seq<(K, V)> {
        self.rest@
    }

    /// The next remaining entry, or `None` once all are handed out.
    pub fn next(&mut self) -> (r: Option<(K, V)>)
        ensures
            old(self).remaining().len() > 0 ==> r == Some(old(self).remaining()[0])
                && final(self).remaining() == old(self).remaining().skip(1),
            old(self).remaining().len() == 0 ==> r is None && final(self).remaining()
                == old(self).remaining(),
    {
        if self.rest.len() > 0 {
            let p = self.rest.remove(0);
            proof {
                assert(old(self).rest@.remove(0) =~= old(self).rest@.skip(1));
            }
            Some(p)
        } else {
            None
        }
    }
}

} // verus!

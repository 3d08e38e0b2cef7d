//! A key-unique mapping from `String` keys to values that keeps insertion
//! order. A plain association vector stands in for the original's probing
//! table: no caller can observe the bucket layout, only the mapping and the
//! order of first insertion, and both are specified here.
use vstd::prelude::*;
use crate::strutil::str_eq;

verus! {

/// The mapping held by an entry vector: a later entry wins, though the
/// well-formedness invariant keeps keys distinct anyway.
spec fn spec_entries_map<V: DeepView>(entries: Seq<(String, V)>) -> Map<
    Seq<char>,
    <V as DeepView>::V,
>
    decreases entries.len(),
{
    if entries.len() == 0 {
        Map::empty()
    } else {
        spec_entries_map(entries.drop_last()).insert(
            entries.last().0@,
            entries.last().1.deep_view(),
        )
    }
}

/// A growable key-unique map with insertion order kept.
pub struct MyHashMap<V> {
    entries: Vec<(String, V)>,
}

impl<V: DeepView> View for MyHashMap<V> {
    type V = Map<Seq<char>, <V as DeepView>::V>;

    closed spec fn view(&self) -> Map<Seq<char>, <V as DeepView>::V> {
        spec_entries_map(self.entries@)
    }
}

/// The domain of the mapping is the set of keys of the entries.
proof fn lemma_entries_map_dom<V: DeepView>(entries: Seq<(String, V)>, k: Seq<char>)
    ensures
        spec_entries_map(entries).contains_key(k) <==> exists|i: int|
            0 <= i < entries.len() && #[trigger] entries[i].0@ == k,
    decreases entries.len(),
{
    if entries.len() > 0 {
        lemma_entries_map_dom(entries.drop_last(), k);
        if spec_entries_map(entries).contains_key(k) {
            if entries.last().0@ == k {
                assert(entries[entries.len() - 1].0@ == k);
            } else {
                let i = choose|i: int|
                    0 <= i < entries.drop_last().len() && #[trigger] entries.drop_last()[i].0@ == k;
                assert(entries[i].0@ == k);
            }
        }
        if exists|i: int| 0 <= i < entries.len() && #[trigger] entries[i].0@ == k {
            let i = choose|i: int| 0 <= i < entries.len() && #[trigger] entries[i].0@ == k;
            if i < entries.len() - 1 {
                assert(entries.drop_last()[i].0@ == k);
            }
        }
    }
}

/// With distinct keys, the mapping sends each entry's key to its value.
proof fn lemma_entries_map_at<V: DeepView>(entries: Seq<(String, V)>, i: int)
    requires
        0 <= i < entries.len(),
        forall|p: int, q: int|
            0 <= p < q < entries.len() ==> (#[trigger] entries[p].0@) != (#[trigger] entries[q].0@),
    ensures
        spec_entries_map(entries).contains_key(entries[i].0@),
        spec_entries_map(entries)[entries[i].0@] == entries[i].1.deep_view(),
    decreases entries.len(),
{
    if i == entries.len() - 1 {
    } else {
        lemma_entries_map_at(entries.drop_last(), i);
        assert(entries.drop_last()[i] == entries[i]);
        assert(entries[i].0@ != entries.last().0@);
    }
}

/// Replacing an entry by one with an equal key view updates the mapping at
/// that key.
proof fn lemma_entries_map_update<V: DeepView>(entries: Seq<(String, V)>, i: int, k: String, v: V)
    requires
        0 <= i < entries.len(),
        k@ == entries[i].0@,
        forall|p: int, q: int|
            0 <= p < q < entries.len() ==> (#[trigger] entries[p].0@) != (#[trigger] entries[q].0@),
    ensures
        spec_entries_map(entries.update(i, (k, v))) == spec_entries_map(entries).insert(
            entries[i].0@,
            v.deep_view(),
        ),
    decreases entries.len(),
{
    let upd = entries.update(i, (k, v));
    if i == entries.len() - 1 {
        assert(upd.drop_last() =~= entries.drop_last());
        assert(spec_entries_map(upd) =~= spec_entries_map(entries).insert(
            entries[i].0@,
            v.deep_view(),
        ));
    } else {
        assert(upd.drop_last() =~= entries.drop_last().update(i, (k, v)));
        assert(entries.drop_last()[i] == entries[i]);
        lemma_entries_map_update(entries.drop_last(), i, k, v);
        assert(upd.last() == entries.last());
        assert(entries[i].0@ != entries.last().0@);
        assert(spec_entries_map(upd) =~= spec_entries_map(entries).insert(
            entries[i].0@,
            v.deep_view(),
        ));
    }
}

impl<V: DeepView> MyHashMap<V> {
    /// The keys, in the order of their first insertion.
    pub closed spec fn keys(&self) -> Seq<Seq<char>> {
        self.entries@.map_values(|e: (String, V)| e.0@)
    }

    /// The values, in the order of their keys' first insertion.
    pub closed spec fn values(&self) -> Seq<V> {
        self.entries@.map_values(|e: (String, V)| e.1)
    }

    /// Keys are distinct.
    pub closed spec fn wf(&self) -> bool {
        forall|p: int, q: int|
            0 <= p < q < self.keys().len() ==> (#[trigger] self.keys()[p]) != (
            #[trigger] self.keys()[q])
    }

    /// Distinct keys, restated over the entries themselves.
    proof fn lemma_distinct(&self)
        requires
            self.wf(),
        ensures
            forall|p: int, q: int|
                0 <= p < q < self.entries@.len() ==> (#[trigger] self.entries@[p].0@) != (
                #[trigger] self.entries@[q].0@),
    {
        assert forall|p: int, q: int|
            0 <= p < q < self.entries@.len() implies (#[trigger] self.entries@[p].0@) != (
        #[trigger] self.entries@[q].0@) by {
            assert(self.keys()[p] == self.entries@[p].0@);
            assert(self.keys()[q] == self.entries@[q].0@);
        }
    }

    /// An empty map.
    pub fn new() -> (r: Self)
        ensures
            r@ == Map::<Seq<char>, <V as DeepView>::V>::empty(),
            r.keys() == Seq::<Seq<char>>::empty(),
            r.wf(),
    {
        let r = MyHashMap { entries: Vec::new() };
        proof {
            assert(r.keys() =~= Seq::<Seq<char>>::empty());
        }
        r
    }

    /// How many keys the map holds.
    pub fn len(&self) -> (n: usize)
        ensures
            n == self.keys().len(),
    {
        self.entries.len()
    }

    /// The position of a key, where it is present.
    fn index_of(&self, key: &String) -> (r: Option<usize>)
        ensures
            match r {
                Some(i) => i < self.keys().len() && self.keys()[i as int] == key@,
                None => forall|j: int| 0 <= j < self.keys().len() ==> self.keys()[j] != key@,
            },
    {
        let n = self.entries.len();
        let mut i: usize = 0;
        while i < n
            invariant
                n == self.entries@.len(),
                i <= n,
                forall|j: int| 0 <= j < i ==> self.keys()[j] != key@,
            decreases n - i,
        {
            if str_eq(self.entries[i].0.as_str(), key.as_str()) {
                return Some(i);
            }
            i = i + 1;
        }
        None
    }

    /// Insert, overwriting the value where the key is already present; a new
    /// key goes to the end of the order.
    pub fn insert(&mut self, key: String, value: V)
        requires
            old(self).wf(),
        ensures
            final(self)@ == old(self)@.insert(key@, value.deep_view()),
            final(self).keys() == if old(self)@.contains_key(key@) {
                old(self).keys()
            } else {
                old(self).keys().push(key@)
            },
            final(self).wf(),
    {
        proof {
            self.lemma_distinct();
            lemma_entries_map_dom(self.entries@, key@);
        }
        match self.index_of(&key) {
            Some(i) => {
                proof {
                    assert(self.keys()[i as int] == self.entries@[i as int].0@);
                }
                self.entries[i] = (key, value);
                proof {
                    let k = self.entries@[i as int].0;
                    assert(old(self).entries@[i as int].0@ == k@);
                    lemma_entries_map_update(old(self).entries@, i as int, k, value);
                    assert(self.entries@ =~= old(self).entries@.update(i as int, (k, value)));
                    assert(final(self).keys() =~= old(self).keys());
                }
            },
            None => {
                proof {
                    assert forall|j: int|
                        0 <= j < old(self).entries@.len() implies (
                    #[trigger] old(self).entries@[j].0@) != key@ by {
                        assert(old(self).keys()[j] == old(self).entries@[j].0@);
                    }
                }
                self.entries.push((key, value));
                proof {
                    assert(self.entries@.drop_last() =~= old(self).entries@);
                    assert(final(self).keys() =~= old(self).keys().push(key@));
                    assert forall|p: int, q: int|
                        0 <= p < q < final(self).keys().len() implies (
                    #[trigger] final(self).keys()[p]) != (#[trigger] final(self).keys()[q]) by {
                        if q < final(self).keys().len() - 1 {
                            assert(old(self).keys()[p] == final(self).keys()[p]);
                            assert(old(self).keys()[q] == final(self).keys()[q]);
                        } else {
                            assert(final(self).keys()[p] == old(self).entries@[p].0@);
                            assert(final(self).keys()[q] == key@);
                        }
                    }
                }
            },
        }
    }

    /// The value at a key, where it is present.
    pub fn get<'a>(&'a self, key: &String) -> (r: Option<&'a V>)
        requires
            self.wf(),
        ensures
            match r {
                Some(v) => self@.contains_key(key@) && v.deep_view() == self@[key@],
                None => !self@.contains_key(key@),
            },
    {
        proof {
            self.lemma_distinct();
            lemma_entries_map_dom(self.entries@, key@);
        }
        match self.index_of(key) {
            Some(i) => {
                proof {
                    assert(self.keys()[i as int] == self.entries@[i as int].0@);
                    lemma_entries_map_at(self.entries@, i as int);
                }
                Some(&self.entries[i].1)
            },
            None => {
                proof {
                    assert forall|j: int|
                        0 <= j < self.entries@.len() implies (#[trigger] self.entries@[j].0@)
                        != key@ by {
                        assert(self.keys()[j] == self.entries@[j].0@);
                    }
                }
                None
            },
        }
    }

    /// A mutable borrow of the value at a key, where it is present; the
    /// mapping afterwards holds whatever the caller wrote through it.
    pub fn get_mut<'a>(&'a mut self, key: &String) -> (r: Option<&'a mut V>)
        requires
            old(self).wf(),
        ensures
            match r {
                Some(m) => {
                    &&& old(self)@.contains_key(key@)
                    &&& (*m).deep_view() == old(self)@[key@]
                    &&& final(self)@ == old(self)@.insert(key@, final(m).deep_view())
                    &&& final(self).keys() == old(self).keys()
                    &&& final(self).wf()
                },
                None => !old(self)@.contains_key(key@) && *final(self) == *old(self),
            },
    {
        proof {
            self.lemma_distinct();
            lemma_entries_map_dom(self.entries@, key@);
        }
        match self.index_of(key) {
            Some(i) => {
                proof {
                    assert(self.keys()[i as int] == self.entries@[i as int].0@);
                    lemma_entries_map_at(self.entries@, i as int);
                    let es = old(self).entries@;
                    assert forall|v: V|
                        {
                            &&& spec_entries_map(es.update(i as int, (es[i as int].0, v)))
                                == spec_entries_map(es).insert(key@, v.deep_view())
                            &&& es.update(i as int, (es[i as int].0, v)).map_values(
                                |e: (String, V)| e.0@,
                            ) == es.map_values(|e: (String, V)| e.0@)
                        } by {
                        lemma_entries_map_update(es, i as int, es[i as int].0, v);
                        assert(es.update(i as int, (es[i as int].0, v)).map_values(
                            |e: (String, V)| e.0@,
                        ) =~= es.map_values(|e: (String, V)| e.0@));
                    }
                }
                let m = &mut self.entries[i].1;
                Some(m)
            },
            None => {
                proof {
                    assert forall|j: int|
                        0 <= j < self.entries@.len() implies (#[trigger] self.entries@[j].0@)
                        != key@ by {
                        assert(self.keys()[j] == self.entries@[j].0@);
                    }
                }
                None
            },
        }
    }

    /// Insert every entry of `other`, in its order; on shared keys the value
    /// of `other` wins.
    pub fn extend(&mut self, other: MyHashMap<V>)
        requires
            old(self).wf(),
        ensures
            final(self)@ == old(self)@.union_prefer_right(other@),
            final(self).wf(),
    {
        let ghost orig: Seq<(String, V)> = other.entries@;
        let mut rest = other.entries;
        let ghost done: int = 0;
        while rest.len() > 0
            invariant
                self.wf(),
                0 <= done <= orig.len(),
                rest@ =~= orig.skip(done),
                self@ == old(self)@.union_prefer_right(spec_entries_map(orig.take(done))),
            decreases rest@.len(),
        {
            let e = rest.remove(0);
            proof {
                assert(e == orig[done]);
                assert(orig.take(done + 1).drop_last() =~= orig.take(done));
                assert(orig.take(done + 1).last() == orig[done]);
                assert(old(self)@.union_prefer_right(spec_entries_map(orig.take(done + 1)))
                    =~= old(self)@.union_prefer_right(spec_entries_map(orig.take(done))).insert(
                    orig[done].0@,
                    orig[done].1.deep_view(),
                ));
            }
            self.insert(e.0, e.1);
            proof {
                done = done + 1;
                assert(rest@ =~= orig.skip(done));
            }
        }
        proof {
            assert(orig.take(orig.len() as int) =~= orig);
        }
    }

    /// An iterator over the entries in key order.
    pub fn iter<'a>(&'a self) -> (r: MyHashMapIter<'a, V>)
        ensures
            r.map == self,
            r.index == 0,
    {
        MyHashMapIter { map: self, index: 0 }
    }
}

impl MyHashMap<String> {
    /// An identical copy; the original's `Clone` implementation re-inserted
    /// every entry in order.
    pub fn clone(&self) -> (r: Self)
        ensures
            r@ == self@,
            r.keys() == self.keys(),
            r.wf() == self.wf(),
    {
        let mut entries: Vec<(String, String)> = Vec::new();
        let n = self.entries.len();
        let mut i: usize = 0;
        while i < n
            invariant
                n == self.entries@.len(),
                i <= n,
                entries@ =~= self.entries@.take(i as int),
            decreases n - i,
        {
            let k = self.entries[i].0.clone();
            let v = self.entries[i].1.clone();
            entries.push((k, v));
            proof {
                assert(entries@ =~= self.entries@.take(i + 1));
            }
            i = i + 1;
        }
        let r = MyHashMap { entries };
        proof {
            assert(r.entries@ =~= self.entries@);
            assert(r.keys() =~= self.keys());
        }
        r
    }
}

/// A cursor over the entries of a `MyHashMap`, in key order.
pub struct MyHashMapIter<'a, V> {
    pub map: &'a MyHashMap<V>,
    pub index: usize,
}

impl<'a, V: DeepView> MyHashMapIter<'a, V> {
    /// The next entry, or `None` past the end.
    pub fn next(&mut self) -> (r: Option<(&'a String, &'a V)>)
        ensures
            match r {
                Some(e) => {
                    &&& old(self).index < old(self).map.keys().len()
                    &&& e.0@ == old(self).map.keys()[old(self).index as int]
                    &&& e.1 == old(self).map.values()[old(self).index as int]
                    &&& final(self).index == old(self).index + 1
                },
                None => old(self).index >= old(self).map.keys().len() && *final(self) == *old(self),
            },
            final(self).map == old(self).map,
    {
        if self.index < self.map.entries.len() {
            let e = &self.map.entries[self.index];
            self.index = self.index + 1;
            Some((&e.0, &e.1))
        } else {
            None
        }
    }
}

} // verus!

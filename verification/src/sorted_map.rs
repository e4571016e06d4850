//! A map kept as a list in strict key order.

use vstd::prelude::*;

verus! {

/// A key with a strict total order. Two keys are the same when their
/// identities are.
pub trait MapKey: Sized {
    type Id;

    spec fn id(&self) -> Self::Id;

    spec fn precedes(a: Self::Id, b: Self::Id) -> bool;

    proof fn lemma_irreflexive(a: Self::Id)
        ensures
            !Self::precedes(a, a),
    ;

    proof fn lemma_transitive(a: Self::Id, b: Self::Id, c: Self::Id)
        requires
            Self::precedes(a, b),
            Self::precedes(b, c),
        ensures
            Self::precedes(a, c),
    ;

    proof fn lemma_total(a: Self::Id, b: Self::Id)
        requires
            !Self::precedes(a, b),
            !Self::precedes(b, a),
        ensures
            a == b,
    ;

    fn is_before(&self, other: &Self) -> (res: bool)
        ensures
            res == Self::precedes(self.id(), other.id()),
    ;
}

/// A map from keys to values.
pub struct SortedMap<K: MapKey, V> {
    entries: Vec<(K, V)>,
}

impl<K: MapKey, V> View for SortedMap<K, V> {
    type V = Map<K::Id, V>;

    closed spec fn view(&self) -> Map<K::Id, V> {
        map_of(self.entries@)
    }
}

spec fn ids_of<K: MapKey, V>(entries: Seq<(K, V)>) -> Seq<K::Id> {
    entries.map_values(|e: (K, V)| e.0.id())
}

spec fn map_of<K: MapKey, V>(entries: Seq<(K, V)>) -> Map<K::Id, V> {
    Map::new(
        |id: K::Id| ids_of(entries).contains(id),
        |id: K::Id| entries[ids_of(entries).index_of(id)].1,
    )
}

/// Whether a list of identities is in strict order.
pub open spec fn strictly_sorted<K: MapKey>(ids: Seq<K::Id>) -> bool {
    forall|i: int, j: int|
        0 <= i < j < ids.len() ==> K::precedes(#[trigger] ids[i], #[trigger] ids[j])
}

proof fn lemma_distinct<K: MapKey>(ids: Seq<K::Id>)
    requires
        strictly_sorted::<K>(ids),
    ensures
        ids.no_duplicates(),
{
    assert forall|i: int, j: int|
        0 <= i < ids.len() && 0 <= j < ids.len() && i != j implies ids[i] != ids[j] by {
        K::lemma_irreflexive(ids[i]);
        if i < j {
            assert(K::precedes(ids[i], ids[j]));
        } else {
            assert(K::precedes(ids[j], ids[i]));
        }
    }
}

proof fn lemma_map_at<K: MapKey, V>(entries: Seq<(K, V)>, i: int)
    requires
        ids_of(entries).no_duplicates(),
        0 <= i < entries.len(),
    ensures
        map_of(entries).contains_key(entries[i].0.id()),
        map_of(entries)[entries[i].0.id()] == entries[i].1,
{
    let ids = ids_of(entries);
    assert(ids[i] == entries[i].0.id());
    assert(ids.contains(entries[i].0.id()));
    assert(ids[ids.index_of(entries[i].0.id())] == ids[i]);
}

proof fn lemma_map_key<K: MapKey, V>(entries: Seq<(K, V)>, id: K::Id) -> (i: int)
    requires
        map_of(entries).contains_key(id),
    ensures
        0 <= i < entries.len(),
        entries[i].0.id() == id,
{
    let ids = ids_of(entries);
    let i = ids.index_of(id);
    assert(ids[i] == id);
    i
}

impl<K: MapKey, V> SortedMap<K, V> {
    /// The keys, in order.
    pub closed spec fn ids(&self) -> Seq<K::Id> {
        ids_of(self.entries@)
    }

    /// The keys are in strict order.
    pub closed spec fn wf(&self) -> bool {
        strictly_sorted::<K>(self.ids())
    }

    /// How the list of keys and the map belong together.
    pub proof fn lemma_ids(&self)
        requires
            self.wf(),
        ensures
            strictly_sorted::<K>(self.ids()),
            self.ids().no_duplicates(),
            self.ids().to_set() == self@.dom(),
            self@.dom().finite(),
            self@.len() == self.ids().len(),
    {
        let ids = self.ids();
        lemma_distinct::<K>(ids);
        ids.unique_seq_to_set();
        vstd::seq_lib::seq_to_set_is_finite(ids);
        assert(self@.dom() =~= ids.to_set());
    }

    pub proof fn lemma_id_at(&self, i: int)
        requires
            self.wf(),
            0 <= i < self.ids().len(),
        ensures
            self@.contains_key(self.ids()[i]),
    {
        lemma_distinct::<K>(self.ids());
        lemma_map_at(self.entries@, i);
    }

    pub proof fn lemma_index_of(&self, id: K::Id) -> (i: int)
        requires
            self@.contains_key(id),
        ensures
            0 <= i < self.ids().len(),
            self.ids()[i] == id,
    {
        lemma_map_key(self.entries@, id)
    }

    pub fn new() -> (res: Self)
        ensures
            res.wf(),
            res@ == Map::<K::Id, V>::empty(),
    {
        let res = SortedMap { entries: Vec::new() };
        assert(res@ =~= Map::empty());
        res
    }

    pub fn len(&self) -> (res: usize)
        ensures
            res == self.ids().len(),
    {
        self.entries.len()
    }

    /// The key at a position.
    pub fn key_at(&self, i: usize) -> (res: &K)
        requires
            i < self.ids().len(),
        ensures
            res.id() == self.ids()[i as int],
    {
        &self.entries[i].0
    }

    /// The value at a position.
    pub fn value_at(&self, i: usize) -> (res: &V)
        requires
            self.wf(),
            i < self.ids().len(),
        ensures
            self@.contains_key(self.ids()[i as int]),
            *res == self@[self.ids()[i as int]],
    {
        proof {
            lemma_distinct::<K>(self.ids());
            lemma_map_at(self.entries@, i as int);
        }
        &self.entries[i].1
    }

    /// The position of the first key that does not come before `key`.
    pub fn lower_bound(&self, key: &K) -> (res: usize)
        requires
            self.wf(),
        ensures
            res <= self.ids().len(),
            forall|i: int|
                0 <= i < res ==> K::precedes(#[trigger] self.ids()[i], key.id()),
            forall|i: int|
                res <= i < self.ids().len() ==> !K::precedes(#[trigger] self.ids()[i], key.id()),
    {
        let ghost ids = self.ids();
        let mut lo: usize = 0;
        let mut hi: usize = self.entries.len();
        while lo < hi
            invariant
                lo <= hi <= self.entries.len(),
                ids == self.ids(),
                self.wf(),
                forall|i: int| 0 <= i < lo ==> K::precedes(#[trigger] ids[i], key.id()),
                forall|i: int| hi <= i < ids.len() ==> !K::precedes(#[trigger] ids[i], key.id()),
            decreases hi - lo,
        {
            let mid: usize = lo + (hi - lo) / 2;
            if self.entries[mid].0.is_before(key) {
                proof {
                    assert forall|i: int| 0 <= i < mid + 1 implies K::precedes(
                        #[trigger] ids[i],
                        key.id(),
                    ) by {
                        if i < mid {
                            K::lemma_transitive(ids[i], ids[mid as int], key.id());
                        }
                    }
                }
                lo = mid + 1;
            } else {
                proof {
                    assert forall|i: int| mid <= i < ids.len() implies !K::precedes(
                        #[trigger] ids[i],
                        key.id(),
                    ) by {
                        if mid < i && K::precedes(ids[i], key.id()) {
                            K::lemma_transitive(ids[mid as int], ids[i], key.id());
                        }
                    }
                }
                hi = mid;
            }
        }
        lo
    }

    /// The position of `key`, if the map has it.
    pub fn find(&self, key: &K) -> (res: Option<usize>)
        requires
            self.wf(),
        ensures
            match res {
                Some(i) => i < self.ids().len() && self.ids()[i as int] == key.id()
                    && self@.contains_key(key.id()),
                None => !self@.contains_key(key.id()),
            },
    {
        let i = self.lower_bound(key);
        if i < self.entries.len() && !key.is_before(&self.entries[i].0) {
            proof {
                K::lemma_total(self.ids()[i as int], key.id());
                self.lemma_id_at(i as int);
            }
            Some(i)
        } else {
            proof {
                if self@.contains_key(key.id()) {
                    let j = self.lemma_index_of(key.id());
                    K::lemma_irreflexive(key.id());
                    assert(j >= i);
                    if j > i {
                        assert(K::precedes(self.ids()[i as int], self.ids()[j]));
                    }
                }
            }
            None
        }
    }

    /// The value of `key`.
    pub fn get(&self, key: &K) -> (res: Option<&V>)
        requires
            self.wf(),
        ensures
            match res {
                Some(v) => self@.contains_key(key.id()) && *v == self@[key.id()],
                None => !self@.contains_key(key.id()),
            },
    {
        match self.find(key) {
            Some(i) => Some(self.value_at(i)),
            None => None,
        }
    }

    /// Gives `key` the value `value`, and tells whether the key is new.
    pub fn insert(&mut self, key: K, value: V) -> (res: bool)
        requires
            old(self).wf(),
        ensures
            final(self).wf(),
            final(self)@ == old(self)@.insert(key.id(), value),
            res == !old(self)@.contains_key(key.id()),
    {
        let ghost before = self.entries@;
        let ghost ids = self.ids();
        let i = self.lower_bound(&key);
        proof {
            lemma_distinct::<K>(ids);
        }
        if i < self.entries.len() && !key.is_before(&self.entries[i].0) {
            proof {
                K::lemma_total(ids[i as int], key.id());
                lemma_map_at(before, i as int);
            }
            self.entries.set(i, (key, value));
            proof {
                let after = self.entries@;
                assert(ids_of(after) =~= ids);
                assert forall|id: K::Id| map_of(after).contains_key(id) implies map_of(after)[id]
                    == map_of(before).insert(key.id(), value)[id] by {
                    let j = lemma_map_key(after, id);
                    lemma_map_at(after, j);
                    lemma_map_at(before, j);
                    if j != i {
                        assert(ids[j] != ids[i as int]);
                    }
                }
                assert(map_of(after) =~= map_of(before).insert(key.id(), value));
            }
            false
        } else {
            self.entries.insert(i, (key, value));
            proof {
                let after = self.entries@;
                assert(ids_of(after) =~= ids.insert(i as int, key.id()));
                if map_of(before).contains_key(key.id()) {
                    let j = lemma_map_key(before, key.id());
                    K::lemma_irreflexive(key.id());
                    assert(ids[j] == key.id());
                    assert(j >= i);
                    if j > i {
                        assert(K::precedes(ids[i as int], ids[j]));
                    }
                }
                assert forall|a: int, b: int| 0 <= a < b < after.len() implies K::precedes(
                    #[trigger] ids_of(after)[a],
                    #[trigger] ids_of(after)[b],
                ) by {
                    let a0 = if a < i { a } else { a - 1 };
                    let b0 = if b < i { b } else { b - 1 };
                    if a == i {
                        assert(K::precedes(key.id(), ids[i as int]));
                        if b0 > i {
                            assert(K::precedes(ids[i as int], ids[b0]));
                            K::lemma_transitive(key.id(), ids[i as int], ids[b0]);
                        }
                    } else if b == i {
                        assert(K::precedes(ids[a0], key.id()));
                    } else {
                        assert(K::precedes(ids[a0], ids[b0]));
                    }
                }
                lemma_distinct::<K>(ids_of(after));
                assert forall|id: K::Id| map_of(after).contains_key(id) == map_of(before).insert(
                    key.id(),
                    value,
                ).contains_key(id) by {
                    if map_of(after).contains_key(id) {
                        let j = lemma_map_key(after, id);
                        if j < i {
                            lemma_map_at(before, j);
                        } else if j > i {
                            lemma_map_at(before, j - 1);
                        }
                    } else if map_of(before).contains_key(id) {
                        let j = lemma_map_key(before, id);
                        lemma_map_at(after, if j < i { j } else { j + 1 });
                    } else if id == key.id() {
                        lemma_map_at(after, i as int);
                    }
                }
                assert forall|id: K::Id| map_of(after).contains_key(id) implies map_of(after)[id]
                    == map_of(before).insert(key.id(), value)[id] by {
                    let j = lemma_map_key(after, id);
                    lemma_map_at(after, j);
                    if j < i {
                        lemma_map_at(before, j);
                    } else if j > i {
                        lemma_map_at(before, j - 1);
                    }
                }
                assert(map_of(after) =~= map_of(before).insert(key.id(), value));
            }
            true
        }
    }

    /// Takes out the entry at a position.
    pub fn remove_at(&mut self, i: usize)
        requires
            old(self).wf(),
            i < old(self).ids().len(),
        ensures
            final(self).wf(),
            final(self)@ == old(self)@.remove(old(self).ids()[i as int]),
            final(self).ids() == old(self).ids().remove(i as int),
    {
        let ghost before = self.entries@;
        let ghost ids = self.ids();
        let _ = self.entries.remove(i);
        proof {
            let after = self.entries@;
            assert(ids_of(after) =~= ids.remove(i as int));
            assert forall|a: int, b: int| 0 <= a < b < after.len() implies K::precedes(
                #[trigger] ids_of(after)[a],
                #[trigger] ids_of(after)[b],
            ) by {
                let a0 = if a < i { a } else { a + 1 };
                let b0 = if b < i { b } else { b + 1 };
                assert(K::precedes(ids[a0], ids[b0]));
            }
            lemma_distinct::<K>(ids);
            lemma_distinct::<K>(ids_of(after));
            assert forall|id: K::Id| map_of(after).contains_key(id) == map_of(before).remove(
                ids[i as int],
            ).contains_key(id) by {
                if map_of(after).contains_key(id) {
                    let j = lemma_map_key(after, id);
                    let j0 = if j < i { j } else { j + 1 };
                    lemma_map_at(before, j0);
                    assert(ids[j0] != ids[i as int]);
                } else if map_of(before).contains_key(id) && id != ids[i as int] {
                    let j = lemma_map_key(before, id);
                    lemma_map_at(after, if j < i { j } else { j - 1 });
                }
            }
            assert forall|id: K::Id| map_of(after).contains_key(id) implies map_of(after)[id]
                == map_of(before)[id] by {
                let j = lemma_map_key(after, id);
                lemma_map_at(after, j);
                lemma_map_at(before, if j < i { j } else { j + 1 });
            }
            assert(map_of(after) =~= map_of(before).remove(ids[i as int]));
        }
    }

    /// Takes out `key`, and tells whether the map had it.
    pub fn remove(&mut self, key: &K) -> (res: bool)
        requires
            old(self).wf(),
        ensures
            final(self).wf(),
            final(self)@ == old(self)@.remove(key.id()),
            res == old(self)@.contains_key(key.id()),
    {
        match self.find(key) {
            Some(i) => {
                self.remove_at(i);
                true
            },
            None => {
                assert(self@.remove(key.id()) =~= self@);
                false
            },
        }
    }
}

} // verus!

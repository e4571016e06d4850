//! A map from user names to values.

use vstd::prelude::*;

use crate::sorted_map::{strictly_sorted, SortedMap};

verus! {

/// A map from user names to values.
pub struct UserMap<V> {
    map: SortedMap<String, V>,
}

impl<V> View for UserMap<V> {
    type V = Map<Seq<char>, V>;

    closed spec fn view(&self) -> Map<Seq<char>, V> {
        self.map@
    }
}

impl<V> UserMap<V> {
    #[verifier::type_invariant]
    spec fn wf(&self) -> bool {
        self.map.wf()
    }

    /// The names, in order.
    pub closed spec fn names(&self) -> Seq<Seq<char>> {
        self.map.ids()
    }

    pub fn new() -> (res: Self)
        ensures
            res@ == Map::<Seq<char>, V>::empty(),
    {
        UserMap { map: SortedMap::new() }
    }

    /// The value of `name`.
    pub fn get(&self, name: &String) -> (res: Option<&V>)
        ensures
            match res {
                Some(v) => self@.contains_key(name@) && *v == self@[name@],
                None => !self@.contains_key(name@),
            },
    {
        proof {
            use_type_invariant(self);
        }
        self.map.get(name)
    }

    /// Gives `name` the value `value`, in place of any it had.
    pub fn insert(&mut self, name: String, value: V)
        ensures
            final(self)@ == old(self)@.insert(name@, value),
    {
        proof {
            use_type_invariant(&*self);
        }
        let mut map: SortedMap<String, V> = SortedMap::new();
        std::mem::swap(&mut map, &mut self.map);
        let _ = map.insert(name, value);
        self.map = map;
    }

    /// Takes out `name`.
    pub fn remove(&mut self, name: &String)
        ensures
            final(self)@ == old(self)@.remove(name@),
    {
        proof {
            use_type_invariant(&*self);
        }
        let mut map: SortedMap<String, V> = SortedMap::new();
        std::mem::swap(&mut map, &mut self.map);
        let _ = map.remove(name);
        self.map = map;
    }

    /// Number of names.
    pub fn len(&self) -> (res: usize)
        ensures
            res == self@.len(),
            res == self.names().len(),
            self@.dom().finite(),
            strictly_sorted::<String>(self.names()),
            self.names().to_set() == self@.dom(),
    {
        proof {
            use_type_invariant(self);
            self.map.lemma_ids();
        }
        self.map.len()
    }

    /// The name at a position, in the order of names.
    pub fn name_at(&self, i: usize) -> (res: &String)
        requires
            i < self.names().len(),
        ensures
            res@ == self.names()[i as int],
    {
        self.map.key_at(i)
    }

    /// The value of the name at a position, in the order of names.
    pub fn value_at(&self, i: usize) -> (res: &V)
        requires
            i < self.names().len(),
        ensures
            self@.contains_key(self.names()[i as int]),
            *res == self@[self.names()[i as int]],
    {
        proof {
            use_type_invariant(self);
        }
        self.map.value_at(i)
    }
}

impl UserMap<usize> {
    /// A map with the same contents.
    pub fn duplicate(&self) -> (res: Self)
        ensures
            res@ == self@,
    {
        let mut out = UserMap::<usize>::new();
        let n = self.len();
        let ghost all = self.names();
        let mut i: usize = 0;
        while i < n
            invariant
                i <= n,
                n == all.len(),
                all == self.names(),
                all.to_set() == self@.dom(),
                forall|name: Seq<char>| #[trigger]
                    out@.contains_key(name) <==> all.take(i as int).contains(name),
                forall|name: Seq<char>| #[trigger]
                    out@.contains_key(name) ==> out@[name] == self@[name],
            decreases n - i,
        {
            assert(all.take(i + 1) =~= all.take(i as int).push(all[i as int]));
            out.insert(self.name_at(i).clone(), *self.value_at(i));
            proof {
                assert forall|name: Seq<char>| #[trigger]
                    out@.contains_key(name) <==> all.take(i + 1).contains(name) by {
                    vstd::seq_lib::lemma_seq_contains_after_push(
                        all.take(i as int),
                        all[i as int],
                        name,
                    );
                }
            }
            i += 1;
        }
        proof {
            assert(all.take(n as int) =~= all);
            assert forall|name: Seq<char>| out@.contains_key(name) == self@.contains_key(name) by {
                assert(all.to_set().contains(name) == all.contains(name));
            }
            assert(out@ =~= self@);
        }
        out
    }
}

} // verus!

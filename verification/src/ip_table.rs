//! A table of `(user, address)` entries that also remembers which users it knows.
//!
//! A user can be known without owning an entry: a user becomes known when an
//! admission is attempted, and stays known until released or compacted away.

use vstd::prelude::*;

use crate::ip::IpAddr;
use crate::names::{name_before, pair_before, Pair};
use crate::sorted_map::{strictly_sorted, MapKey, SortedMap};

verus! {

/// A table of per-user, per-address values.
pub struct IpTable<V> {
    users: SortedMap<String, ()>,
    entries: SortedMap<Pair, V>,
}

/// What an [`IpTable`] holds: the users it knows and the value of each entry.
#[verifier::ext_equal]
pub struct IpTableView<V> {
    pub users: Set<Seq<char>>,
    pub entries: Map<(Seq<char>, IpAddr), V>,
}

/// Whether something seen at `seen` is still within `window_secs` at `now`;
/// both instants are in nanoseconds. An instant in the future counts as now.
pub open spec fn in_window(seen: u64, now: u64, window_secs: u64) -> bool {
    now - seen <= window_secs * 1_000_000_000
}

/// Whether `user` is covered by `only`, which names one user or all of them.
pub open spec fn covers(only: Option<Seq<char>>, user: Seq<char>) -> bool {
    match only {
        Some(name) => name == user,
        None => true,
    }
}

impl<V> IpTableView<V> {
    pub open spec fn empty() -> Self {
        IpTableView { users: Set::empty(), entries: Map::empty() }
    }

    /// The addresses that `user` owns.
    pub open spec fn user_ips(self, user: Seq<char>) -> Set<IpAddr> {
        Set::new(|ip: IpAddr| self.entries.contains_key((user, ip)))
    }

    /// Whether `user` owns at least one entry.
    pub open spec fn owns_any(self, user: Seq<char>) -> bool {
        exists|ip: IpAddr| #[trigger] self.entries.contains_key((user, ip))
    }

    /// Entries belong to known users, and there are finitely many of both.
    pub open spec fn sound(self) -> bool {
        &&& self.users.finite()
        &&& self.entries.dom().finite()
        &&& forall|user: Seq<char>, ip: IpAddr| #[trigger]
            self.entries.contains_key((user, ip)) ==> self.users.contains(user)
    }

    pub open spec fn with_user(self, user: Seq<char>) -> Self {
        IpTableView { users: self.users.insert(user), ..self }
    }

    pub open spec fn with_entry(self, user: Seq<char>, ip: IpAddr, value: V) -> Self {
        IpTableView {
            users: self.users.insert(user),
            entries: self.entries.insert((user, ip), value),
        }
    }

    pub open spec fn without_entry(self, user: Seq<char>, ip: IpAddr) -> Self {
        IpTableView { entries: self.entries.remove((user, ip)), ..self }
    }

    pub open spec fn without_user(self, user: Seq<char>) -> Self {
        IpTableView {
            users: self.users.remove(user),
            entries: self.entries.restrict(
                Set::new(|key: (Seq<char>, IpAddr)| key.0 != user),
            ),
        }
    }

    /// `user` is forgotten unless it still owns an entry.
    pub open spec fn without_idle_user(self, user: Seq<char>) -> Self {
        if self.owns_any(user) {
            self
        } else {
            IpTableView { users: self.users.remove(user), ..self }
        }
    }
}

impl IpTableView<u64> {
    /// Entries of the covered users that have left the window are gone.
    pub open spec fn pruned(self, only: Option<Seq<char>>, now: u64, window_secs: u64) -> Self {
        IpTableView {
            entries: self.entries.restrict(
                Set::new(
                    |key: (Seq<char>, IpAddr)|
                        !covers(only, key.0) || in_window(self.entries[key], now, window_secs),
                ),
            ),
            ..self
        }
    }

    /// The addresses of `user` seen within the window.
    pub open spec fn fresh_ips(self, user: Seq<char>, now: u64, window_secs: u64) -> Set<IpAddr> {
        Set::new(
            |ip: IpAddr|
                self.entries.contains_key((user, ip)) && in_window(
                    self.entries[(user, ip)],
                    now,
                    window_secs,
                ),
        )
    }
}

/// A pair of `user` that no other pair of `user` comes before.
spec fn first_pair(user: Seq<char>) -> (Seq<char>, IpAddr) {
    (user, IpAddr::V4(0))
}

/// In a sorted list of pairs, the pairs of one user stand together.
proof fn lemma_run_end(ids: Seq<(Seq<char>, IpAddr)>, user: Seq<char>, i: int)
    requires
        strictly_sorted::<Pair>(ids),
        0 <= i < ids.len(),
        !pair_before(ids[i], first_pair(user)),
        ids[i].0 != user,
    ensures
        forall|j: int| i <= j < ids.len() ==> (#[trigger] ids[j]).0 != user,
{
    assert forall|j: int| i <= j < ids.len() implies (#[trigger] ids[j]).0 != user by {
        if ids[j].0 == user {
            assert(Pair::precedes(ids[i], ids[j]));
            assert(name_before(ids[i].0, user));
        }
    }
}

/// Nothing before the first pair of a user belongs to it.
proof fn lemma_before_run(ids: Seq<(Seq<char>, IpAddr)>, user: Seq<char>, i: int)
    requires
        0 <= i < ids.len(),
        pair_before(ids[i], first_pair(user)),
    ensures
        ids[i].0 != user,
{
    String::lemma_irreflexive(user);
}

impl<V> View for IpTable<V> {
    type V = IpTableView<V>;

    closed spec fn view(&self) -> IpTableView<V> {
        IpTableView { users: self.users@.dom(), entries: self.entries@ }
    }
}

impl<V> IpTable<V> {
    /// Entries belong to known users.
    pub closed spec fn wf(&self) -> bool {
        &&& self.users.wf()
        &&& self.entries.wf()
        &&& forall|user: Seq<char>, ip: IpAddr| #[trigger]
            self.entries@.contains_key((user, ip)) ==> self.users@.contains_key(user)
    }

    /// What well-formedness says of the contents.
    pub proof fn lemma_sound(&self)
        requires
            self.wf(),
        ensures
            self@.sound(),
    {
        self.users.lemma_ids();
        self.entries.lemma_ids();
        assert forall|user: Seq<char>, ip: IpAddr| #[trigger]
            self@.entries.contains_key((user, ip)) implies self@.users.contains(user) by {
            assert(self.entries@.contains_key((user, ip)));
        }
    }

    pub fn new() -> (res: Self)
        ensures
            res.wf(),
            res@ == IpTableView::<V>::empty(),
    {
        let res = IpTable { users: SortedMap::new(), entries: SortedMap::new() };
        assert(res@.users =~= Set::empty());
        res
    }

    /// Number of entries.
    pub fn len(&self) -> (res: usize)
        requires
            self.wf(),
        ensures
            res == self@.entries.len(),
    {
        proof {
            self.entries.lemma_ids();
        }
        self.entries.len()
    }

    /// The position from which the entries of `user` stand.
    fn first_of(&self, user: &String) -> (res: usize)
        requires
            self.wf(),
        ensures
            res <= self.entries.ids().len(),
            forall|i: int| 0 <= i < res ==> (#[trigger] self.entries.ids()[i]).0 != user@,
            forall|i: int|
                res <= i < self.entries.ids().len() ==> !pair_before(
                    #[trigger] self.entries.ids()[i],
                    first_pair(user@),
                ),
    {
        let first = Pair { user: user.clone(), ip: IpAddr::V4(0) };
        let res = self.entries.lower_bound(&first);
        proof {
            assert forall|i: int| 0 <= i < res implies (
            #[trigger] self.entries.ids()[i]).0 != user@ by {
                assert(Pair::precedes(self.entries.ids()[i], first.id()));
                lemma_before_run(self.entries.ids(), user@, i);
            }
            assert forall|i: int| res <= i < self.entries.ids().len() implies !pair_before(
                #[trigger] self.entries.ids()[i],
                first_pair(user@),
            ) by {
                assert(!Pair::precedes(self.entries.ids()[i], first.id()));
            }
        }
        res
    }

    /// Whether `user` is known.
    pub fn knows(&self, user: &String) -> (res: bool)
        requires
            self.wf(),
        ensures
            res == self@.users.contains(user@),
    {
        self.users.find(user).is_some()
    }

    /// Makes `user` known.
    pub fn add_user(&mut self, user: &String)
        requires
            old(self).wf(),
        ensures
            final(self).wf(),
            final(self)@ == old(self)@.with_user(user@),
    {
        let _ = self.users.insert(user.clone(), ());
        assert(self@.users =~= old(self)@.users.insert(user@));
    }

    /// Whether there is an entry for `user` and `ip`.
    pub fn contains(&self, user: &String, ip: IpAddr) -> (res: bool)
        requires
            self.wf(),
        ensures
            res == self@.entries.contains_key((user@, ip)),
    {
        self.entries.find(&Pair { user: user.clone(), ip }).is_some()
    }

    /// Stores `value` for `user` and `ip`, and tells whether the entry is new.
    pub fn set(&mut self, user: &String, ip: IpAddr, value: V) -> (res: bool)
        requires
            old(self).wf(),
        ensures
            final(self).wf(),
            final(self)@ == old(self)@.with_entry(user@, ip, value),
            res == !old(self)@.entries.contains_key((user@, ip)),
    {
        self.add_user(user);
        let ghost before = self@;
        let res = self.entries.insert(Pair { user: user.clone(), ip }, value);
        proof {
            assert forall|u: Seq<char>, a: IpAddr| #[trigger]
                self.entries@.contains_key((u, a)) implies self.users@.contains_key(u) by {
                if (u, a) != (user@, ip) {
                    assert(before.entries.contains_key((u, a)));
                } else {
                    assert(before.users.contains(user@));
                }
            }
        }
        res
    }

    /// Takes out the entry for `user` and `ip`, and tells whether there was one.
    pub fn remove(&mut self, user: &String, ip: IpAddr) -> (res: bool)
        requires
            old(self).wf(),
        ensures
            final(self).wf(),
            final(self)@ == old(self)@.without_entry(user@, ip),
            res == old(self)@.entries.contains_key((user@, ip)),
    {
        self.entries.remove(&Pair { user: user.clone(), ip })
    }

    /// Whether `user` owns an entry.
    pub fn owns_any(&self, user: &String) -> (res: bool)
        requires
            self.wf(),
        ensures
            res == self@.owns_any(user@),
    {
        let i = self.first_of(user);
        let ghost ids = self.entries.ids();
        let res = i < self.entries.len() && self.entries.key_at(i).user == *user;
        proof {
            self.entries.lemma_ids();
            if res {
                self.entries.lemma_id_at(i as int);
                assert(self@.entries.contains_key((user@, ids[i as int].1)));
            } else {
                assert forall|ip: IpAddr| !self@.entries.contains_key((user@, ip)) by {
                    if self@.entries.contains_key((user@, ip)) {
                        let j = self.entries.lemma_index_of((user@, ip));
                        if i < ids.len() {
                            lemma_run_end(ids, user@, i as int);
                        }
                    }
                }
            }
        }
        res
    }

    /// Forgets `user` if it owns no entry.
    pub fn forget_if_idle(&mut self, user: &String)
        requires
            old(self).wf(),
        ensures
            final(self).wf(),
            final(self)@ == old(self)@.without_idle_user(user@),
    {
        if !self.owns_any(user) {
            self.drop_user_name(user);
        }
    }

    /// Drops a user that owns no entry from the known users.
    fn drop_user_name(&mut self, user: &String)
        requires
            old(self).wf(),
            !old(self)@.owns_any(user@),
        ensures
            final(self).wf(),
            final(self)@ == (IpTableView { users: old(self)@.users.remove(user@), ..old(self)@ }),
    {
        let _ = self.users.remove(user);
        proof {
            assert(self@.users =~= old(self)@.users.remove(user@));
            assert forall|u: Seq<char>, a: IpAddr| #[trigger]
                self.entries@.contains_key((u, a)) implies self.users@.contains_key(u) by {
                assert(old(self)@.entries.contains_key((u, a)));
                assert(old(self).entries@.contains_key((u, a)));
            }
        }
    }

    /// Takes out everything about `user`, and tells how many entries went.
    pub fn remove_user(&mut self, user: &String) -> (res: usize)
        requires
            old(self).wf(),
        ensures
            final(self).wf(),
            final(self)@ == old(self)@.without_user(user@),
            res == old(self)@.entries.len() - final(self)@.entries.len(),
            res == old(self)@.user_ips(user@).len(),
            old(self)@.user_ips(user@).finite(),
    {
        let ghost before = self@;
        let removed: usize = self.ips_of(user).len();
        let total: usize = self.entries.len();
        let i = self.first_of(user);
        proof {
            self.entries.lemma_ids();
        }
        while i < self.entries.len() && self.entries.key_at(i).user == *user
            invariant
                i <= self.entries.ids().len() <= total,
                before.entries.dom().finite(),
                self.wf(),
                self.users == old(self).users,
                before == old(self)@,
                forall|key: (Seq<char>, IpAddr)| #[trigger]
                    self@.entries.contains_key(key) ==> before.entries.contains_key(key)
                        && before.entries[key] == self@.entries[key],
                forall|key: (Seq<char>, IpAddr)| #[trigger]
                    before.entries.contains_key(key) && key.0 != user@
                        ==> self@.entries.contains_key(key),
                forall|j: int| 0 <= j < i ==> (#[trigger] self.entries.ids()[j]).0 != user@,
                forall|j: int|
                    i <= j < self.entries.ids().len() ==> !pair_before(
                        #[trigger] self.entries.ids()[j],
                        first_pair(user@),
                    ),
            decreases self.entries.ids().len(),
        {
            let ghost ids = self.entries.ids();
            let ghost held = self@.entries;
            self.entries.remove_at(i);
            proof {
                let after = self.entries.ids();
                assert(self@.entries == held.remove(ids[i as int]));
                assert forall|key: (Seq<char>, IpAddr)| #[trigger]
                    self@.entries.contains_key(key) implies before.entries.contains_key(key)
                    && before.entries[key] == self@.entries[key] by {
                    assert(held.contains_key(key));
                }
                assert forall|j: int| 0 <= j < i implies (#[trigger] after[j]).0 != user@ by {
                    assert(after[j] == ids[j]);
                }
                assert forall|j: int| i <= j < after.len() implies !pair_before(
                    #[trigger] after[j],
                    first_pair(user@),
                ) by {
                    assert(after[j] == ids[j + 1]);
                }
            }
        }
        proof {
            let ids = self.entries.ids();
            self.entries.lemma_ids();
            assert forall|ip: IpAddr| !self@.entries.contains_key((user@, ip)) by {
                if self@.entries.contains_key((user@, ip)) {
                    let j = self.entries.lemma_index_of((user@, ip));
                    if i < ids.len() {
                        lemma_run_end(ids, user@, i as int);
                    }
                }
            }
            assert(self@.entries =~= before.without_user(user@).entries);
            lemma_split_len(before, user@);
        }
        self.drop_user_name(user);
        removed
    }

    /// The addresses that `user` owns, in order.
    pub fn ips_of(&self, user: &String) -> (res: Vec<IpAddr>)
        requires
            self.wf(),
        ensures
            res@.no_duplicates(),
            res@.to_set() == self@.user_ips(user@),
            res.len() == self@.user_ips(user@).len(),
            self@.user_ips(user@).finite(),
            res.len() <= self@.entries.len(),
    {
        let mut out: Vec<IpAddr> = Vec::new();
        let start = self.first_of(user);
        let ghost ids = self.entries.ids();
        let mut i: usize = start;
        proof {
            self.entries.lemma_ids();
        }
        while i < self.entries.len() && self.entries.key_at(i).user == *user
            invariant
                start <= i <= ids.len(),
                ids == self.entries.ids(),
                ids.no_duplicates(),
                self.wf(),
                out.len() == i - start,
                forall|j: int|
                    start <= j < i ==> #[trigger] ids[j] == (user@, out[j - start]),
            decreases ids.len() - i,
        {
            out.push(self.entries.key_at(i).ip);
            i += 1;
        }
        proof {
            assert forall|a: int, b: int| 0 <= a < out.len() && 0 <= b < out.len() && a != b implies
                out@[a] != out@[b] by {
                assert(ids[a + start] == (user@, out[a]));
                assert(ids[b + start] == (user@, out[b]));
            }
            out@.unique_seq_to_set();
            vstd::seq_lib::seq_to_set_is_finite(out@);
            assert forall|ip: IpAddr| out@.contains(ip) == self@.entries.contains_key(
                (user@, ip),
            ) by {
                if out@.contains(ip) {
                    let a = out@.index_of(ip);
                    assert(ids[a + start] == (user@, out[a]));
                    self.entries.lemma_id_at(a + start);
                } else if self@.entries.contains_key((user@, ip)) {
                    let j = self.entries.lemma_index_of((user@, ip));
                    assert(ids[j].0 == user@);
                    if i < ids.len() {
                        lemma_run_end(ids, user@, i as int);
                    }
                    assert(start <= j < i);
                    assert(out@[j - start] == ip);
                }
            }
            assert(out@.to_set() =~= self@.user_ips(user@));
        }
        out
    }

    /// How many addresses `user` owns.
    pub fn count_of(&self, user: &String) -> (res: usize)
        requires
            self.wf(),
        ensures
            res == self@.user_ips(user@).len(),
            self@.user_ips(user@).finite(),
            res <= self@.entries.len(),
    {
        self.ips_of(user).len()
    }

    /// The known users, each once.
    pub fn known_users(&self) -> (res: Vec<String>)
        requires
            self.wf(),
        ensures
            res@.map_values(|u: String| u@).no_duplicates(),
            res@.map_values(|u: String| u@).to_set() == self@.users,
    {
        let mut out: Vec<String> = Vec::new();
        let mut i: usize = 0;
        while i < self.users.len()
            invariant
                i <= self.users.ids().len(),
                out.len() == i,
                forall|j: int| 0 <= j < i ==> (#[trigger] out[j])@ == self.users.ids()[j],
            decreases self.users.ids().len() - i,
        {
            out.push(self.users.key_at(i).clone());
            i += 1;
        }
        proof {
            self.users.lemma_ids();
            assert(out@.map_values(|u: String| u@) =~= self.users.ids());
        }
        out
    }
}

/// The entries of a table are those of one user and those of the others.
proof fn lemma_split_len<V>(table: IpTableView<V>, user: Seq<char>)
    requires
        table.entries.dom().finite(),
        table.user_ips(user).finite(),
    ensures
        table.entries.len() == table.user_ips(user).len() + table.without_user(user).entries.len(),
{
    let ips = table.user_ips(user);
    let with_user = |ip: IpAddr| (user, ip);
    let mine = ips.map(with_user);
    let others = table.without_user(user).entries.dom();
    ips.lemma_map_finite(with_user);
    vstd::set_lib::lemma_map_size(ips, mine, with_user);
    assert(others.subset_of(table.entries.dom()));
    vstd::set_lib::lemma_len_subset(others, table.entries.dom());
    assert(mine.disjoint(others));
    assert(table.entries.dom() =~= mine + others) by {
        assert forall|key: (Seq<char>, IpAddr)| table.entries.dom().contains(key) implies (mine
            + others).contains(key) by {
            if key.0 == user {
                assert(ips.contains(key.1));
                assert(with_user(key.1) == key);
            }
        }
    }
    vstd::set_lib::lemma_set_disjoint_lens(mine, others);
}

impl<V: Copy> IpTable<V> {
    /// The value stored for `user` and `ip`.
    pub fn get(&self, user: &String, ip: IpAddr) -> (res: Option<V>)
        requires
            self.wf(),
        ensures
            res == (if self@.entries.contains_key((user@, ip)) {
                Some(self@.entries[(user@, ip)])
            } else {
                None
            }),
    {
        match self.entries.get(&Pair { user: user.clone(), ip }) {
            Some(v) => Some(*v),
            None => None,
        }
    }
}

/// Whether something seen at `seen` is still within the window at `now`.
pub fn is_in_window(seen: u64, now: u64, window_secs: u64) -> (res: bool)
    ensures
        res == in_window(seen, now, window_secs),
{
    if now <= seen {
        true
    } else {
        assert(window_secs as u128 * 1_000_000_000 <= u128::MAX) by (nonlinear_arith);
        (now - seen) as u128 <= window_secs as u128 * 1_000_000_000
    }
}

impl IpTable<u64> {
    /// Whether the user of the entry at a position is covered.
    fn is_covered(&self, i: usize, only: Option<&String>) -> (res: bool)
        requires
            i < self.entries.ids().len(),
        ensures
            res == covers(
                match only {
                    Some(name) => Some(name@),
                    None => None,
                },
                self.entries.ids()[i as int].0,
            ),
    {
        match only {
            Some(name) => self.entries.key_at(i).user == *name,
            None => true,
        }
    }

    /// Takes out the entries of the covered users that have left the window,
    /// and tells how many went.
    pub fn prune(&mut self, only: Option<&String>, now: u64, window_secs: u64) -> (res: usize)
        requires
            old(self).wf(),
        ensures
            final(self).wf(),
            final(self)@ == old(self)@.pruned(
                match only {
                    Some(name) => Some(name@),
                    None => None,
                },
                now,
                window_secs,
            ),
            res == old(self)@.entries.len() - final(self)@.entries.len(),
    {
        let ghost before = self@;
        let ghost scope = match only {
            Some(name) => Some(name@),
            None => None,
        };
        let total: usize = self.entries.len();
        let mut removed: usize = 0;
        let mut i: usize = match only {
            Some(name) => self.first_of(name),
            None => 0,
        };
        proof {
            self.entries.lemma_ids();
        }
        while i < self.entries.len() && self.is_covered(i, only)
            invariant
                i <= self.entries.ids().len(),
                self.wf(),
                self.users == old(self).users,
                before == old(self)@,
                removed + self.entries.ids().len() == total,
                total == before.entries.len(),
                scope == (match only {
                    Some(name) => Some(name@),
                    None => None,
                }),
                forall|key: (Seq<char>, IpAddr)| #[trigger]
                    self@.entries.contains_key(key) ==> before.entries.contains_key(key)
                        && before.entries[key] == self@.entries[key],
                forall|key: (Seq<char>, IpAddr)| #[trigger]
                    before.entries.contains_key(key) && (!covers(scope, key.0) || in_window(
                        before.entries[key],
                        now,
                        window_secs,
                    )) ==> self@.entries.contains_key(key),
                forall|j: int|
                    0 <= j < i ==> !covers(scope, (#[trigger] self.entries.ids()[j]).0) || in_window(
                        self@.entries[self.entries.ids()[j]],
                        now,
                        window_secs,
                    ),
                scope matches Some(user) ==> forall|j: int|
                    i <= j < self.entries.ids().len() ==> !pair_before(
                        #[trigger] self.entries.ids()[j],
                        first_pair(user),
                    ),
            decreases self.entries.ids().len() - i,
        {
            let ghost ids = self.entries.ids();
            let ghost held = self@.entries;
            if is_in_window(*self.entries.value_at(i), now, window_secs) {
                i += 1;
            } else {
                proof {
                    self.entries.lemma_ids();
                    self.entries.lemma_id_at(i as int);
                }
                self.entries.remove_at(i);
                removed += 1;
                proof {
                    let after = self.entries.ids();
                    assert forall|j: int| 0 <= j < i implies !covers(
                        scope,
                        (#[trigger] after[j]).0,
                    ) || in_window(self@.entries[after[j]], now, window_secs) by {
                        assert(after[j] == ids[j]);
                        assert(ids[j] != ids[i as int]);
                        assert(self@.entries[after[j]] == held[ids[j]]);
                    }
                    if let Some(user) = scope {
                        assert forall|j: int| i <= j < after.len() implies !pair_before(
                            #[trigger] after[j],
                            first_pair(user),
                        ) by {
                            assert(after[j] == ids[j + 1]);
                        }
                    }
                }
            }
        }
        proof {
            let ids = self.entries.ids();
            self.entries.lemma_ids();
            assert forall|key: (Seq<char>, IpAddr)| #[trigger]
                self@.entries.contains_key(key) implies !covers(scope, key.0) || in_window(
                before.entries[key],
                now,
                window_secs,
            ) by {
                let j = self.entries.lemma_index_of(key);
                if j >= i {
                    if let Some(user) = scope {
                        lemma_run_end(ids, user, i as int);
                    }
                }
            }
            assert(self@.entries =~= before.pruned(scope, now, window_secs).entries);
        }
        removed
    }

    /// The addresses of `user` seen within the window, each once.
    pub fn fresh_ips_of(&self, user: &String, now: u64, window_secs: u64) -> (res: Vec<IpAddr>)
        requires
            self.wf(),
        ensures
            res@.no_duplicates(),
            res@.to_set() == self@.fresh_ips(user@, now, window_secs),
            res.len() == self@.fresh_ips(user@, now, window_secs).len(),
            self@.fresh_ips(user@, now, window_secs).finite(),
            res.len() <= self@.entries.len(),
    {
        let owned = self.ips_of(user);
        let mut out: Vec<IpAddr> = Vec::new();
        let mut i: usize = 0;
        while i < owned.len()
            invariant
                i <= owned.len(),
                self.wf(),
                owned@.no_duplicates(),
                owned@.to_set() == self@.user_ips(user@),
                out.len() <= i,
                out@.no_duplicates(),
                forall|ip: IpAddr| #[trigger]
                    out@.contains(ip) <==> self@.fresh_ips(user@, now, window_secs).contains(ip)
                        && owned@.take(i as int).contains(ip),
            decreases owned.len() - i,
        {
            let ip = owned[i];
            assert(owned@.to_set().contains(ip));
            let fresh = match self.get(user, ip) {
                Some(seen) => is_in_window(seen, now, window_secs),
                None => false,
            };
            let ghost prior = out@;
            let ghost seen_before = owned@.take(i as int);
            let ghost seen_after = owned@.take(i + 1);
            assert(seen_after =~= seen_before.push(ip));
            assert(!seen_before.contains(ip)) by {
                if seen_before.contains(ip) {
                    let j = seen_before.index_of(ip);
                    assert(owned@[j] == owned@[i as int]);
                }
            }
            assert(!prior.contains(ip));
            if fresh {
                out.push(ip);
            }
            proof {
                assert forall|other: IpAddr| #[trigger] out@.contains(other) <==> self@.fresh_ips(
                    user@,
                    now,
                    window_secs,
                ).contains(other) && seen_after.contains(other) by {
                    vstd::seq_lib::lemma_seq_contains_after_push(seen_before, ip, other);
                    if fresh {
                        vstd::seq_lib::lemma_seq_contains_after_push(prior, ip, other);
                    }
                }
            }
            i += 1;
        }
        proof {
            assert(owned@.take(owned.len() as int) =~= owned@);
            out@.unique_seq_to_set();
            vstd::seq_lib::seq_to_set_is_finite(out@);
            assert forall|ip: IpAddr| out@.contains(ip) == self@.fresh_ips(
                user@,
                now,
                window_secs,
            ).contains(ip) by {
                if self@.fresh_ips(user@, now, window_secs).contains(ip) {
                    assert(owned@.to_set().contains(ip));
                }
            }
            assert(out@.to_set() =~= self@.fresh_ips(user@, now, window_secs));
        }
        out
    }
}

} // verus!

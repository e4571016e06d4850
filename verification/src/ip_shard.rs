//! One shard of the tracker, and the routing of `(user, address)` pairs to shards.

use vstd::prelude::*;

use crate::hashing::{hash_ip, hash_text, ip_hash, text_hash};
use crate::ip::IpAddr;
use crate::ip_table::{IpTable, IpTableView};
use crate::text::{decimal_reading, parse_decimal};

verus! {

/// Number of shards when the setting is missing or spells no number.
pub const DEFAULT_SHARD_COUNT: usize = 32;

/// Largest number of shards.
pub const MAX_SHARD_COUNT: usize = 1024;

/// Two to the power `n`.
pub open spec fn power_of_two(n: nat) -> nat
    decreases n,
{
    if n == 0 {
        1
    } else {
        2 * power_of_two((n - 1) as nat)
    }
}

/// Whether `value` is a power of two.
pub open spec fn is_power_of_two(value: nat) -> bool {
    exists|n: nat| #[trigger] power_of_two(n) == value
}

/// Whether `value` is the smallest power of two that is at least `least`.
pub open spec fn is_rounded_up(value: nat, least: nat) -> bool {
    &&& is_power_of_two(value)
    &&& value >= least
    &&& forall|n: nat| #[trigger] power_of_two(n) >= least ==> power_of_two(n) >= value
}

/// The shard count that a setting asks for, before rounding: the number it
/// spells, but at least one and at most the maximum. The default stands for a
/// setting that is missing or spells no number.
pub open spec fn requested_shards(setting: Option<Seq<char>>) -> nat {
    let asked = match setting {
        Some(text) => match decimal_reading(text) {
            Some(n) => if n < 1 {
                1
            } else {
                n
            },
            None => DEFAULT_SHARD_COUNT as nat,
        },
        None => DEFAULT_SHARD_COUNT as nat,
    };
    if asked > MAX_SHARD_COUNT {
        MAX_SHARD_COUNT as nat
    } else {
        asked
    }
}

/// A number that a setting spells is clamped to the range from one to the
/// maximum, and the default is used only where no number is spelled.
pub proof fn lemma_requested_shards_clamped(setting: Option<Seq<char>>)
    ensures
        1 <= requested_shards(setting) <= MAX_SHARD_COUNT,
        setting is None ==> requested_shards(setting) == DEFAULT_SHARD_COUNT,
        setting matches Some(text) ==> match decimal_reading(text) {
            Some(n) => {
                &&& n <= 1 ==> requested_shards(setting) == 1
                &&& 1 <= n <= MAX_SHARD_COUNT ==> requested_shards(setting) == n
                &&& n >= MAX_SHARD_COUNT ==> requested_shards(setting) == MAX_SHARD_COUNT
            },
            None => requested_shards(setting) == DEFAULT_SHARD_COUNT,
        },
{
}

proof fn lemma_power_step(n: nat, k: nat)
    ensures
        n <= k ==> power_of_two(n) <= power_of_two(k),
        n < k ==> 2 * power_of_two(n) <= power_of_two(k),
        power_of_two(n) >= 1,
    decreases n + k,
{
    if n < k {
        lemma_power_step(n, (k - 1) as nat);
    } else if n > 0 {
        lemma_power_step((n - 1) as nat, 0);
    }
}

/// The number of shards for a setting: what it asks for, rounded up to a power
/// of two.
pub fn shard_count_for(setting: Option<&str>) -> (res: usize)
    ensures
        is_rounded_up(
            res as nat,
            requested_shards(
                match setting {
                    Some(text) => Some(text@),
                    None => None,
                },
            ),
        ),
        1 <= res <= MAX_SHARD_COUNT,
{
    let asked: usize = match setting {
        Some(text) => match parse_decimal(text) {
            Some(n) => if n < 1 {
                1
            } else {
                n
            },
            None => DEFAULT_SHARD_COUNT,
        },
        None => DEFAULT_SHARD_COUNT,
    };
    let least: usize = if asked > MAX_SHARD_COUNT {
        MAX_SHARD_COUNT
    } else {
        asked
    };
    let mut value: usize = 1;
    let ghost mut n: nat = 0;
    assert(power_of_two(10) == 1024) by {
        reveal_with_fuel(power_of_two, 11);
    }
    while value < least
        invariant
            1 <= least <= 1024,
            value == power_of_two(n),
            1 <= value <= 1024,
            n <= 10,
            power_of_two(10) == 1024,
            forall|k: nat| k < n ==> #[trigger] power_of_two(k) < least,
        decreases 10 - n,
    {
        proof {
            lemma_power_step(n, 10);
            assert(power_of_two((n + 1) as nat) == 2 * power_of_two(n));
            n = (n + 1) as nat;
        }
        value = value * 2;
    }
    proof {
        assert forall|k: nat| #[trigger] power_of_two(k) >= least implies power_of_two(k) >= value by {
            if k < n {
            } else {
                lemma_power_step(n, k);
            }
        }
    }
    value
}

/// The shard that owns a `(user, address)` pair. The two hashes are mixed, so
/// the addresses of one user spread over the shards.
pub open spec fn home_shard(user: Seq<char>, ip: IpAddr, mask: usize) -> usize {
    ((text_hash(user) ^ ((ip_hash(ip) << 7) | (ip_hash(ip) >> 57))) as usize) & mask
}

/// Finds the shard that owns a `(user, address)` pair.
pub fn shard_index(user: &str, ip: IpAddr, mask: usize) -> (res: usize)
    ensures
        res == home_shard(user@, ip, mask),
        res <= mask,
{
    let user_hash: u64 = hash_text(user);
    let ip_hash: u64 = hash_ip(ip);
    let mixed: u64 = user_hash ^ ((ip_hash << 7) | (ip_hash >> 57));
    let wide: usize = mixed as usize;
    assert(wide & mask <= mask) by (bit_vector);
    wide & mask
}

/// The routing law: a pair always has the same shard, and it exists.
pub proof fn lemma_home_shard_in_range(user: Seq<char>, ip: IpAddr, mask: usize)
    ensures
        home_shard(user, ip, mask) <= mask,
{
    let wide = (text_hash(user) ^ ((ip_hash(ip) << 7) | (ip_hash(ip) >> 57))) as usize;
    assert(wide & mask <= mask) by (bit_vector);
}

/// Active sessions and recently seen addresses of the pairs that one shard owns.
pub struct UserIpShardSlot {
    /// Number of open sessions per pair.
    pub active: IpTable<usize>,
    /// When each pair was last admitted, in nanoseconds.
    pub recent: IpTable<u64>,
}

/// What a shard holds.
#[verifier::ext_equal]
pub struct SlotView {
    pub active: IpTableView<usize>,
    pub recent: IpTableView<u64>,
}

impl View for UserIpShardSlot {
    type V = SlotView;

    open spec fn view(&self) -> SlotView {
        SlotView { active: self.active@, recent: self.recent@ }
    }
}

impl IpTableView<usize> {
    /// `pending` sessions of a pair end. A pair without sessions left is gone,
    /// and so is a user without pairs.
    pub open spec fn released(self, user: Seq<char>, ip: IpAddr, pending: usize) -> Self {
        if pending == 0 {
            self
        } else if !self.entries.contains_key((user, ip)) {
            self.without_idle_user(user)
        } else if self.entries[(user, ip)] > pending {
            self.with_entry(user, ip, (self.entries[(user, ip)] - pending) as usize)
        } else {
            self.without_entry(user, ip).without_idle_user(user)
        }
    }
}

impl SlotView {
    pub open spec fn empty() -> Self {
        SlotView { active: IpTableView::empty(), recent: IpTableView::empty() }
    }

    pub open spec fn sound(self) -> bool {
        self.active.sound() && self.recent.sound()
    }

    /// Whether `user` owns anything here.
    pub open spec fn in_use(self, user: Seq<char>) -> bool {
        self.active.owns_any(user) || self.recent.owns_any(user)
    }

    /// `user` becomes known, and its addresses that left the window are gone.
    pub open spec fn touched(self, user: Seq<char>, now: u64, window_secs: u64) -> Self {
        SlotView {
            active: self.active.with_user(user),
            recent: self.recent.with_user(user).pruned(Some(user), now, window_secs),
        }
    }

    /// The addresses of `user` that left the window are gone.
    pub open spec fn pruned(self, user: Seq<char>, now: u64, window_secs: u64) -> Self {
        SlotView { recent: self.recent.pruned(Some(user), now, window_secs), ..self }
    }

    /// Everything that left the window is gone, and so is every user that owns
    /// nothing here any more.
    pub open spec fn compacted(self, now: u64, window_secs: u64) -> Self {
        let kept = SlotView { recent: self.recent.pruned(None, now, window_secs), ..self };
        SlotView {
            active: IpTableView {
                users: kept.active.users.filter(|user: Seq<char>| kept.in_use(user)),
                ..kept.active
            },
            recent: IpTableView {
                users: kept.recent.users.filter(|user: Seq<char>| kept.in_use(user)),
                ..kept.recent
            },
        }
    }

    /// `pending` sessions of a pair end.
    pub open spec fn released(self, user: Seq<char>, ip: IpAddr, pending: usize) -> Self {
        SlotView { active: self.active.released(user, ip, pending), ..self }
    }

    /// A pair gets `sessions` open sessions and is seen at `now`.
    pub open spec fn admitted(self, user: Seq<char>, ip: IpAddr, sessions: usize, now: u64) -> Self {
        SlotView {
            active: self.active.with_entry(user, ip, sessions),
            recent: self.recent.with_entry(user, ip, now),
        }
    }

    /// Everything about `user` is gone.
    pub open spec fn without_user(self, user: Seq<char>) -> Self {
        SlotView {
            active: self.active.without_user(user),
            recent: self.recent.without_user(user),
        }
    }
}

impl UserIpShardSlot {
    pub open spec fn wf(&self) -> bool {
        self.active.wf() && self.recent.wf()
    }

    pub proof fn lemma_sound(&self)
        requires
            self.wf(),
        ensures
            self@.sound(),
    {
        self.active.lemma_sound();
        self.recent.lemma_sound();
    }

    pub fn new() -> (res: Self)
        ensures
            res.wf(),
            res@ == SlotView::empty(),
    {
        UserIpShardSlot { active: IpTable::new(), recent: IpTable::new() }
    }

    /// Ends `pending_count` sessions of a pair, and tells how many active
    /// entries went: one if this was the last session, else none.
    pub fn apply_active_cleanup_shard(
        &mut self,
        user: &String,
        ip: IpAddr,
        pending_count: usize,
    ) -> (res: usize)
        requires
            old(self).wf(),
        ensures
            final(self).wf(),
            final(self)@ == old(self)@.released(user@, ip, pending_count),
            res == old(self)@.active.entries.len() - final(self)@.active.entries.len(),
            res <= 1,
    {
        if pending_count == 0 {
            return 0;
        }
        proof {
            self.lemma_sound();
        }
        let mut removed: usize = 0;
        match self.active.get(user, ip) {
            Some(count) => {
                if count > pending_count {
                    let _ = self.active.set(user, ip, count - pending_count);
                } else {
                    let _ = self.active.remove(user, ip);
                    removed = 1;
                    self.active.forget_if_idle(user);
                }
            },
            None => {
                self.active.forget_if_idle(user);
            },
        }
        removed
    }

    /// Makes `user` known and takes out its addresses that left the window;
    /// tells how many went.
    pub fn touch(&mut self, user: &String, now: u64, window_secs: u64) -> (res: usize)
        requires
            old(self).wf(),
        ensures
            final(self).wf(),
            final(self)@ == old(self)@.touched(user@, now, window_secs),
            res == old(self)@.recent.entries.len() - final(self)@.recent.entries.len(),
    {
        self.active.add_user(user);
        self.recent.add_user(user);
        self.recent.prune(Some(user), now, window_secs)
    }

    /// Takes out everything that left the window and forgets users that own
    /// nothing; tells how many recent entries went.
    pub fn compact(&mut self, now: u64, window_secs: u64) -> (res: usize)
        requires
            old(self).wf(),
        ensures
            final(self).wf(),
            final(self)@ == old(self)@.compacted(now, window_secs),
            res == old(self)@.recent.entries.len() - final(self)@.recent.entries.len(),
    {
        let pruned = self.recent.prune(None, now, window_secs);
        let ghost kept = self@;
        let users = self.active.known_users();
        let ghost active_names = users@.map_values(|u: String| u@);
        self.forget_idle(&users);
        let more = self.recent.known_users();
        let ghost recent_names = more@.map_values(|u: String| u@);
        let ghost midway = self@;
        self.forget_idle(&more);
        proof {
            assert forall|user: Seq<char>| #[trigger] kept.active.users.contains(user) implies
                active_names.contains(user) by {
                assert(active_names.to_set().contains(user));
            }
            assert forall|user: Seq<char>| #[trigger] midway.recent.users.contains(user) implies
                recent_names.contains(user) by {
                assert(recent_names.to_set().contains(user));
            }
            assert(self@.active.users =~= kept.active.users.filter(
                |user: Seq<char>| kept.in_use(user),
            ));
            assert(self@.recent.users =~= kept.recent.users.filter(
                |user: Seq<char>| kept.in_use(user),
            ));
        }
        pruned
    }

    /// Forgets the named users that own nothing here.
    fn forget_idle(&mut self, users: &Vec<String>)
        requires
            old(self).wf(),
        ensures
            final(self).wf(),
            final(self)@.active.entries == old(self)@.active.entries,
            final(self)@.recent.entries == old(self)@.recent.entries,
            forall|user: Seq<char>| #[trigger]
                final(self)@.active.users.contains(user) <==> old(self)@.active.users.contains(user)
                    && (old(self)@.in_use(user) || !users@.map_values(|u: String| u@).contains(
                    user,
                )),
            forall|user: Seq<char>| #[trigger]
                final(self)@.recent.users.contains(user) <==> old(self)@.recent.users.contains(user)
                    && (old(self)@.in_use(user) || !users@.map_values(|u: String| u@).contains(
                    user,
                )),
    {
        let ghost before = self@;
        let ghost names = users@.map_values(|u: String| u@);
        let mut i: usize = 0;
        while i < users.len()
            invariant
                i <= users.len(),
                self.wf(),
                names == users@.map_values(|u: String| u@),
                self@.active.entries == before.active.entries,
                self@.recent.entries == before.recent.entries,
                forall|user: Seq<char>| #[trigger]
                    self@.active.users.contains(user) <==> before.active.users.contains(user) && (
                    before.in_use(user) || !names.take(i as int).contains(user)),
                forall|user: Seq<char>| #[trigger]
                    self@.recent.users.contains(user) <==> before.recent.users.contains(user) && (
                    before.in_use(user) || !names.take(i as int).contains(user)),
            decreases users.len() - i,
        {
            assert(names.take(i + 1) =~= names.take(i as int).push(names[i as int]));
            assert(names[i as int] == users[i as int]@);
            assert(self@.in_use(users[i as int]@) == before.in_use(users[i as int]@));
            proof {
                assert forall|user: Seq<char>| #[trigger] names.take(i + 1).contains(user) == (
                names.take(i as int).contains(user) || user == names[i as int]) by {
                    vstd::seq_lib::lemma_seq_contains_after_push(
                        names.take(i as int),
                        names[i as int],
                        user,
                    );
                }
            }
            if !self.active.owns_any(&users[i]) && !self.recent.owns_any(&users[i]) {
                self.active.forget_if_idle(&users[i]);
                self.recent.forget_if_idle(&users[i]);
            }
            i += 1;
        }
        assert(names.take(users.len() as int) =~= names);
    }
}

} // verus!

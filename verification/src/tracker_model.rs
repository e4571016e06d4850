//! The tracker as a mathematical state, and what each operation does to it.

use vstd::prelude::*;
use vstd::string::*;

use crate::cleanup_queue::{queue_sound, PendingRelease};
use crate::clock::Clock;
use crate::ip::IpAddr;
use crate::ip_shard::{home_shard, is_power_of_two, SlotView};
use crate::sorted_map::strictly_sorted;
use crate::text::{numeral, push_number};

verus! {

/// How many queued releases one drain applies.
pub const CLEANUP_DRAIN_BATCH_LIMIT: usize = 1024;

/// Largest number of active `(user, address)` entries.
pub const MAX_ACTIVE_IP_ENTRIES: u64 = 131_072;

/// Largest number of recent `(user, address)` entries.
pub const MAX_RECENT_IP_ENTRIES: u64 = 262_144;

/// Seconds between two compactions.
pub const COMPACT_INTERVAL_SECS: u64 = 60;

/// What a per-user limit counts.
#[derive(Clone, Copy, Debug, PartialEq, Eq, Structural)]
pub enum UserMaxUniqueIpsMode {
    /// Addresses with open sessions.
    ActiveWindow,
    /// Addresses seen within the window.
    TimeWindow,
    /// Both.
    Combined,
}

/// Why an admission was refused.
#[derive(Clone, Copy, Debug, PartialEq, Eq, Structural)]
pub enum Refusal {
    /// The user is at its limit.
    UserLimit { active: usize, recent: usize, limit: usize, mode: UserMaxUniqueIpsMode },
    /// The tracker holds as many active entries as it may.
    ActiveCap { entries: u64 },
    /// The tracker holds as many recent entries as it may.
    RecentCap { entries: u64 },
}

impl UserMaxUniqueIpsMode {
    /// The name of the mode.
    pub open spec fn name(self) -> Seq<char> {
        match self {
            UserMaxUniqueIpsMode::ActiveWindow => "ActiveWindow"@,
            UserMaxUniqueIpsMode::TimeWindow => "TimeWindow"@,
            UserMaxUniqueIpsMode::Combined => "Combined"@,
        }
    }
}

impl Refusal {
    /// The message of a refusal to `user`.
    pub open spec fn text(self, user: Seq<char>) -> Seq<char> {
        match self {
            Refusal::UserLimit { active, recent, limit, mode } => "IP limit reached for user '"@
                + user + "': active="@ + numeral(active as nat, 10) + "/"@ + numeral(
                limit as nat,
                10,
            ) + " recent="@ + numeral(recent as nat, 10) + "/"@ + numeral(limit as nat, 10)
                + " mode="@ + mode.name(),
            Refusal::ActiveCap { entries } => "IP tracker active entry cap reached: entries="@
                + numeral(entries as nat, 10) + "/"@ + numeral(MAX_ACTIVE_IP_ENTRIES as nat, 10),
            Refusal::RecentCap { entries } => "IP tracker recent entry cap reached: entries="@
                + numeral(entries as nat, 10) + "/"@ + numeral(MAX_RECENT_IP_ENTRIES as nat, 10),
        }
    }
}

impl Refusal {
    /// The message of a refusal to `user`.
    pub fn message(&self, user: &str) -> (res: String)
        ensures
            res@ == self.text(user@),
    {
        let mut out = String::new();
        match *self {
            Refusal::UserLimit { active, recent, limit, mode } => {
                out.append("IP limit reached for user '");
                out.append(user);
                out.append("': active=");
                push_number(&mut out, active as u64, 10);
                out.append("/");
                push_number(&mut out, limit as u64, 10);
                out.append(" recent=");
                push_number(&mut out, recent as u64, 10);
                out.append("/");
                push_number(&mut out, limit as u64, 10);
                out.append(" mode=");
                match mode {
                    UserMaxUniqueIpsMode::ActiveWindow => out.append("ActiveWindow"),
                    UserMaxUniqueIpsMode::TimeWindow => out.append("TimeWindow"),
                    UserMaxUniqueIpsMode::Combined => out.append("Combined"),
                }
            },
            Refusal::ActiveCap { entries } => {
                out.append("IP tracker active entry cap reached: entries=");
                push_number(&mut out, entries, 10);
                out.append("/");
                push_number(&mut out, MAX_ACTIVE_IP_ENTRIES, 10);
            },
            Refusal::RecentCap { entries } => {
                out.append("IP tracker recent entry cap reached: entries=");
                push_number(&mut out, entries, 10);
                out.append("/");
                push_number(&mut out, MAX_RECENT_IP_ENTRIES, 10);
            },
        }
        assert(out@ =~= self.text(user@));
        out
    }
}

/// The sum of a quantity over the shards.
pub open spec fn sum_over(shards: Seq<SlotView>, size: spec_fn(SlotView) -> nat) -> nat
    decreases shards.len(),
{
    if shards.len() == 0 {
        0
    } else {
        sum_over(shards.drop_last(), size) + size(shards.last())
    }
}

/// Number of active entries of a shard.
pub open spec fn active_size() -> spec_fn(SlotView) -> nat {
    |slot: SlotView| slot.active.entries.len()
}

/// Number of recent entries of a shard.
pub open spec fn recent_size() -> spec_fn(SlotView) -> nat {
    |slot: SlotView| slot.recent.entries.len()
}

/// Number of active addresses of `user` in a shard.
pub open spec fn user_active_size(user: Seq<char>) -> spec_fn(SlotView) -> nat {
    |slot: SlotView| slot.active.user_ips(user).len()
}

/// Number of recent addresses of `user` in a shard.
pub open spec fn user_recent_size(user: Seq<char>) -> spec_fn(SlotView) -> nat {
    |slot: SlotView| slot.recent.user_ips(user).len()
}

/// Number of addresses of `user` in a shard that are within the window.
pub open spec fn user_fresh_size(user: Seq<char>, now: u64, window_secs: u64) -> spec_fn(
    SlotView,
) -> nat {
    |slot: SlotView| slot.recent.fresh_ips(user, now, window_secs).len()
}

/// Whether every pair that a shard holds is its own, and every active one has a
/// session.
pub open spec fn slot_orderly(slot: SlotView, index: int, mask: usize) -> bool {
    &&& forall|user: Seq<char>, ip: IpAddr| #[trigger]
        slot.active.entries.contains_key((user, ip)) ==> home_shard(user, ip, mask) == index
            && slot.active.entries[(user, ip)] >= 1
    &&& forall|user: Seq<char>, ip: IpAddr| #[trigger]
        slot.recent.entries.contains_key((user, ip)) ==> home_shard(user, ip, mask) == index
}

/// The state of a tracker.
#[verifier::ext_equal]
pub struct TrackerView {
    pub shards: Seq<SlotView>,
    /// Limits of single users; zero stands for none.
    pub limits: Map<Seq<char>, usize>,
    /// Limit of every other user; zero stands for none.
    pub default_limit: usize,
    pub mode: UserMaxUniqueIpsMode,
    pub window_secs: u64,
    pub last_compact_epoch_secs: u64,
    pub queue: Seq<PendingRelease>,
    pub active_cap_rejects: u64,
    pub recent_cap_rejects: u64,
    pub deferred_releases: u64,
}

/// The shards after a batch of releases, applied in order.
pub open spec fn release_all(shards: Seq<SlotView>, batch: Seq<PendingRelease>) -> Seq<SlotView>
    decreases batch.len(),
{
    if batch.len() == 0 {
        shards
    } else {
        let prior = release_all(shards, batch.drop_last());
        let release = batch.last();
        let i = home_shard(release.user, release.ip, (shards.len() - 1) as usize) as int;
        prior.update(i, prior[i].released(release.user, release.ip, release.count))
    }
}

/// How often `name` occurs.
pub open spec fn occurrences(names: Seq<Seq<char>>, name: Seq<char>) -> nat
    decreases names.len(),
{
    if names.len() == 0 {
        0
    } else {
        occurrences(names.drop_last(), name) + if names.last() == name {
            1nat
        } else {
            0nat
        }
    }
}

/// The names in a list of strings.
pub open spec fn names_in(users: Seq<String>) -> Seq<Seq<char>> {
    users.map_values(|user: String| user@)
}

/// `n`, or the largest value that fits.
pub open spec fn capped(n: nat) -> usize {
    if n > usize::MAX {
        usize::MAX
    } else {
        n as usize
    }
}

/// The addresses listed for each name.
pub open spec fn ips_in(lists: Map<Seq<char>, Vec<IpAddr>>) -> Map<Seq<char>, Set<IpAddr>> {
    lists.map_values(|ips: Vec<IpAddr>| ips@.to_set())
}

/// The users of lines in the statistics.
pub open spec fn row_names(rows: Seq<(Seq<char>, usize, usize)>) -> Seq<Seq<char>> {
    rows.map_values(|row: (Seq<char>, usize, usize)| row.0)
}

/// What lines in the statistics say.
pub open spec fn row_views(rows: Seq<(String, usize, usize)>) -> Seq<(Seq<char>, usize, usize)> {
    rows.map_values(|row: (String, usize, usize)| (row.0@, row.1, row.2))
}

/// The first `i + 1` elements are the first `i` and one more.
pub proof fn lemma_take_set<A>(items: Seq<A>, i: int)
    requires
        0 <= i < items.len(),
    ensures
        items.take(i + 1).to_set() == items.take(i).to_set().insert(items[i]),
{
    let longer = items.take(i + 1);
    assert(longer =~= items.take(i).push(items[i]));
    assert forall|item: A| longer.to_set().contains(item) == items.take(i).to_set().insert(
        items[i],
    ).contains(item) by {
        vstd::seq_lib::lemma_seq_contains_after_push(items.take(i), items[i], item);
    }
    assert(longer.to_set() =~= items.take(i).to_set().insert(items[i]));
}

/// A name occurs where it is listed, and nowhere else.
pub proof fn lemma_occurrences_positive(names: Seq<Seq<char>>, name: Seq<char>)
    ensures
        occurrences(names, name) > 0 <==> names.contains(name),
    decreases names.len(),
{
    if names.len() > 0 {
        lemma_occurrences_positive(names.drop_last(), name);
        assert(names =~= names.drop_last().push(names.last()));
        vstd::seq_lib::lemma_seq_contains_after_push(names.drop_last(), names.last(), name);
    }
}

/// Counting one more listed name.
pub proof fn lemma_counts_step(
    state: TrackerView,
    names: Seq<Seq<char>>,
    i: int,
    now: u64,
    so_far: usize,
    n: usize,
)
    requires
        0 <= i < names.len(),
        n == state.user_fresh_total(names[i], now),
        so_far == capped(occurrences(names.take(i), names[i]) * n as nat),
    ensures
        forall|name: Seq<char>| #[trigger]
            occurrences(names.take(i + 1), name) == occurrences(names.take(i), name) + if name
                == names[i] {
                1nat
            } else {
                0nat
            },
        (if so_far + n > usize::MAX {
            usize::MAX as int
        } else {
            so_far + n
        }) == capped(occurrences(names.take(i + 1), names[i]) * n as nat),
{
    assert(names.take(i + 1).drop_last() =~= names.take(i));
    assert(names.take(i + 1).last() == names[i]);
    let k = occurrences(names.take(i), names[i]);
    assert((k + 1) * n == k * n + n) by (nonlinear_arith);
}

/// One more, unless that would not fit.
pub open spec fn one_more(count: usize) -> usize {
    if count == usize::MAX {
        count
    } else {
        (count + 1) as usize
    }
}

impl TrackerView {
    pub open spec fn mask(self) -> usize {
        (self.shards.len() - 1) as usize
    }

    /// The shard that owns a pair.
    pub open spec fn home(self, user: Seq<char>, ip: IpAddr) -> int {
        home_shard(user, ip, self.mask()) as int
    }

    pub open spec fn active_total(self) -> nat {
        sum_over(self.shards, active_size())
    }

    pub open spec fn recent_total(self) -> nat {
        sum_over(self.shards, recent_size())
    }

    pub open spec fn user_active_total(self, user: Seq<char>) -> nat {
        sum_over(self.shards, user_active_size(user))
    }

    pub open spec fn user_recent_total(self, user: Seq<char>) -> nat {
        sum_over(self.shards, user_recent_size(user))
    }

    pub open spec fn user_fresh_total(self, user: Seq<char>, now: u64) -> nat {
        sum_over(self.shards, user_fresh_size(user, now, self.window_secs))
    }

    /// What holds of every state: there is a power of two of shards, each pair
    /// is in its own shard, an active one has a session, the caps are
    /// respected, and the queue is in order.
    pub open spec fn sound(self) -> bool {
        &&& 1 <= self.shards.len() <= 1024
        &&& is_power_of_two(self.shards.len())
        &&& forall|i: int| 0 <= i < self.shards.len() ==> (#[trigger] self.shards[i]).sound()
        &&& forall|i: int|
            0 <= i < self.shards.len() ==> slot_orderly(#[trigger] self.shards[i], i, self.mask())
        &&& self.active_total() <= MAX_ACTIVE_IP_ENTRIES
        &&& self.recent_total() <= MAX_RECENT_IP_ENTRIES
        &&& self.window_secs >= 1
        &&& queue_sound(self.queue)
    }

    /// Whether a pair has an open session.
    pub open spec fn is_active(self, user: Seq<char>, ip: IpAddr) -> bool {
        self.shards[self.home(user, ip)].active.entries.contains_key((user, ip))
    }

    /// Number of open sessions of a pair.
    pub open spec fn sessions(self, user: Seq<char>, ip: IpAddr) -> nat {
        if self.is_active(user, ip) {
            self.shards[self.home(user, ip)].active.entries[(user, ip)] as nat
        } else {
            0
        }
    }

    /// Whether a pair is among the recently seen ones.
    pub open spec fn is_recent(self, user: Seq<char>, ip: IpAddr) -> bool {
        self.shards[self.home(user, ip)].recent.entries.contains_key((user, ip))
    }

    /// The addresses with open sessions of `user`.
    pub open spec fn active_ips(self, user: Seq<char>) -> Set<IpAddr> {
        Set::new(|ip: IpAddr| self.is_active(user, ip))
    }

    /// The addresses of `user` seen within the window.
    pub open spec fn fresh_ips(self, user: Seq<char>, now: u64) -> Set<IpAddr> {
        Set::new(
            |ip: IpAddr|
                self.shards[self.home(user, ip)].recent.fresh_ips(
                    user,
                    now,
                    self.window_secs,
                ).contains(ip),
        )
    }

    /// The users that some shard lists among its active ones.
    pub open spec fn listed_users(self) -> Set<Seq<char>> {
        Set::new(
            |user: Seq<char>|
                exists|i: int|
                    0 <= i < self.shards.len() && (
                    #[trigger] self.shards[i]).active.users.contains(user),
        )
    }

    /// The users with an open session.
    pub open spec fn active_users(self) -> Set<Seq<char>> {
        Set::new(
            |user: Seq<char>|
                exists|i: int|
                    0 <= i < self.shards.len() && (#[trigger] self.shards[i]).active.owns_any(user),
        )
    }

    /// The users with a recently seen address.
    pub open spec fn recent_users(self) -> Set<Seq<char>> {
        Set::new(
            |user: Seq<char>|
                exists|i: int|
                    0 <= i < self.shards.len() && (#[trigger] self.shards[i]).recent.owns_any(user),
        )
    }

    /// Whether `lists` says which addresses each of the named users was seen
    /// from within the window.
    pub open spec fn recent_ips_report(
        self,
        names: Seq<Seq<char>>,
        now: u64,
        lists: Map<Seq<char>, Set<IpAddr>>,
    ) -> bool {
        &&& lists.dom() == names.to_set()
        &&& forall|user: Seq<char>| #[trigger]
            lists.contains_key(user) ==> lists[user] == self.fresh_ips(user, now)
    }

    /// Whether `counts` says how many addresses each of the named users was seen
    /// from within the window, once for every time the name is listed.
    pub open spec fn recent_counts_report(
        self,
        names: Seq<Seq<char>>,
        now: u64,
        counts: Map<Seq<char>, usize>,
    ) -> bool {
        &&& counts.dom() == names.to_set()
        &&& forall|user: Seq<char>| #[trigger]
            counts.contains_key(user) ==> counts[user] == capped(
                occurrences(names, user) * self.user_fresh_total(user, now),
            )
    }

    /// The line about `user` in the statistics: its name, the number of its
    /// addresses with an open session, and its limit or zero.
    pub open spec fn stats_row(self, user: Seq<char>) -> (Seq<char>, usize, usize) {
        (
            user,
            self.user_active_total(user) as usize,
            match self.limit_of(user) {
                Some(limit) => limit,
                None => 0,
            },
        )
    }

    /// Whether `rows` are the lines about all listed users, in the order of names.
    pub open spec fn stats_report(self, rows: Seq<(Seq<char>, usize, usize)>) -> bool {
        &&& strictly_sorted::<String>(row_names(rows))
        &&& row_names(rows).to_set() == self.listed_users()
        &&& forall|i: int|
            0 <= i < rows.len() ==> #[trigger] rows[i] == self.stats_row(rows[i].0)
    }

    /// The limit that applies to `user`: its own when positive, else the
    /// default when positive, else none.
    pub open spec fn limit_of(self, user: Seq<char>) -> Option<usize> {
        if self.limits.contains_key(user) && self.limits[user] > 0 {
            Some(self.limits[user])
        } else if self.default_limit > 0 {
            Some(self.default_limit)
        } else {
            None
        }
    }

    pub open spec fn with_slot(self, index: int, slot: SlotView) -> Self {
        TrackerView { shards: self.shards.update(index, slot), ..self }
    }

    /// How many releases the next drain applies.
    pub open spec fn batch_len(self) -> int {
        if self.queue.len() < CLEANUP_DRAIN_BATCH_LIMIT {
            self.queue.len() as int
        } else {
            CLEANUP_DRAIN_BATCH_LIMIT as int
        }
    }

    /// The queued releases that come first are applied.
    pub open spec fn drained(self) -> Self {
        TrackerView {
            shards: release_all(self.shards, self.queue.take(self.batch_len())),
            queue: self.queue.skip(self.batch_len()),
            ..self
        }
    }

    /// Whether a compaction is due.
    pub open spec fn compaction_due(self, epoch_secs: u64) -> bool {
        epoch_secs - self.last_compact_epoch_secs >= COMPACT_INTERVAL_SECS
    }

    /// Every shard is compacted, when that is due.
    pub open spec fn compacted(self, clock: Clock) -> Self {
        if self.compaction_due(clock.epoch_secs) {
            TrackerView {
                shards: self.shards.map_values(
                    |slot: SlotView| slot.compacted(clock.instant_nanos, self.window_secs),
                ),
                last_compact_epoch_secs: clock.epoch_secs,
                ..self
            }
        } else {
            self
        }
    }

    /// The home shard gets to know `user` and drops what left the window.
    pub open spec fn touched(self, user: Seq<char>, ip: IpAddr, now: u64) -> Self {
        let home = self.home(user, ip);
        self.with_slot(home, self.shards[home].touched(user, now, self.window_secs))
    }

    /// Every shard drops what `user` owns outside the window.
    pub open spec fn pruned(self, user: Seq<char>, now: u64) -> Self {
        TrackerView {
            shards: self.shards.map_values(
                |slot: SlotView| slot.pruned(user, now, self.window_secs),
            ),
            ..self
        }
    }

    /// Whether a new recent entry would go over the cap.
    pub open spec fn recent_full(self) -> bool {
        self.recent_total() >= MAX_RECENT_IP_ENTRIES
    }

    pub open spec fn active_full(self) -> bool {
        self.active_total() >= MAX_ACTIVE_IP_ENTRIES
    }

    pub open spec fn admitted(self, user: Seq<char>, ip: IpAddr, sessions: usize, now: u64) -> Self {
        let home = self.home(user, ip);
        self.with_slot(home, self.shards[home].admitted(user, ip, sessions, now))
    }

    pub open spec fn active_cap_rejected(self) -> Self {
        TrackerView {
            active_cap_rejects: self.active_cap_rejects.wrapping_add(1),
            ..self
        }
    }

    pub open spec fn recent_cap_rejected(self) -> Self {
        TrackerView {
            recent_cap_rejects: self.recent_cap_rejects.wrapping_add(1),
            ..self
        }
    }

    /// Another session of a pair that has one. Limits do not apply.
    pub open spec fn reconnection(self, user: Seq<char>, ip: IpAddr, now: u64) -> (
        Self,
        Option<Refusal>,
    ) {
        if !self.is_recent(user, ip) && self.recent_full() {
            (
                self.recent_cap_rejected(),
                Some(Refusal::RecentCap { entries: self.recent_total() as u64 }),
            )
        } else {
            (self.admitted(user, ip, one_more(self.sessions(user, ip) as usize), now), None)
        }
    }

    /// Whether the limit of `user`, if it has one, keeps out a pair without a
    /// session.
    pub open spec fn over_limit(self, user: Seq<char>, ip: IpAddr) -> bool {
        match self.limit_of(user) {
            Some(limit) => {
                let active_reached = self.user_active_total(user) >= limit;
                let recent_reached = self.user_recent_total(user) >= limit && !self.is_recent(
                    user,
                    ip,
                );
                match self.mode {
                    UserMaxUniqueIpsMode::ActiveWindow => active_reached,
                    UserMaxUniqueIpsMode::TimeWindow => recent_reached,
                    UserMaxUniqueIpsMode::Combined => active_reached || recent_reached,
                }
            },
            None => false,
        }
    }

    /// The decision on a pair without a session, once the window is enforced.
    pub open spec fn decision(self, user: Seq<char>, ip: IpAddr) -> Option<Refusal> {
        if self.over_limit(user, ip) {
            Some(
                Refusal::UserLimit {
                    active: self.user_active_total(user) as usize,
                    recent: self.user_recent_total(user) as usize,
                    limit: self.limit_of(user).unwrap(),
                    mode: self.mode,
                },
            )
        } else if self.active_full() {
            Some(Refusal::ActiveCap { entries: self.active_total() as u64 })
        } else if !self.is_recent(user, ip) && self.recent_full() {
            Some(Refusal::RecentCap { entries: self.recent_total() as u64 })
        } else {
            None
        }
    }

    /// The first session of a pair.
    pub open spec fn first_contact(self, user: Seq<char>, ip: IpAddr, now: u64) -> (
        Self,
        Option<Refusal>,
    ) {
        let settled = self.pruned(user, now);
        let refusal = settled.decision(user, ip);
        let after = match refusal {
            None => settled.admitted(user, ip, 1, now),
            Some(Refusal::UserLimit { .. }) => settled,
            Some(Refusal::ActiveCap { .. }) => settled.active_cap_rejected(),
            Some(Refusal::RecentCap { .. }) => settled.recent_cap_rejected(),
        };
        (after, refusal)
    }

    /// The state in which an admission is decided.
    pub open spec fn prepared(self, user: Seq<char>, ip: IpAddr, clock: Clock) -> Self {
        self.drained().compacted(clock).touched(user, ip, clock.instant_nanos)
    }

    /// An attempt to open a session: the state after it, and why it was
    /// refused if it was.
    pub open spec fn admission(self, user: Seq<char>, ip: IpAddr, clock: Clock) -> (
        Self,
        Option<Refusal>,
    ) {
        let ready = self.prepared(user, ip, clock);
        if ready.is_active(user, ip) {
            ready.reconnection(user, ip, clock.instant_nanos)
        } else {
            ready.first_contact(user, ip, clock.instant_nanos)
        }
    }

    /// The end of one session of a pair.
    pub open spec fn departure(self, user: Seq<char>, ip: IpAddr, clock: Clock) -> Self {
        self.compacted(clock).departed(user, ip)
    }

    pub open spec fn departed(self, user: Seq<char>, ip: IpAddr) -> Self {
        let home = self.home(user, ip);
        self.with_slot(home, self.shards[home].released(user, ip, 1))
    }

    /// Everything about `user` is gone.
    pub open spec fn without_user(self, user: Seq<char>) -> Self {
        TrackerView {
            shards: self.shards.map_values(|slot: SlotView| slot.without_user(user)),
            ..self
        }
    }

    /// Everything about all users is gone.
    pub open spec fn cleared(self) -> Self {
        TrackerView {
            shards: self.shards.map_values(|slot: SlotView| SlotView::empty()),
            ..self
        }
    }

    /// The state after `n` drains.
    pub open spec fn drains(self, n: nat) -> Self
        decreases n,
    {
        if n == 0 {
            self
        } else {
            self.drains((n - 1) as nat).drained()
        }
    }
}

} // verus!

//! Per-user admission control by client address.

use vstd::prelude::*;
use vstd::string::*;

use crate::cleanup_queue::{queue_sound, queue_with, release_views, CleanupQueue};
use crate::clock::{one_more_reading, Clock, ProcessClock};
use crate::ip::IpAddr;
use crate::ip_shard::{
    is_power_of_two, is_rounded_up, lemma_home_shard_in_range, requested_shards, shard_count_for,
    shard_index, SlotView, UserIpShardSlot,
};
use crate::ip_table::IpTable;
use crate::sorted_map::{strictly_sorted, SortedMap};
use crate::tracker_laws::lemma_pruned_sound;
use crate::tracker_model::{
    active_size, ips_in, lemma_counts_step, lemma_occurrences_positive, lemma_take_set, names_in,
    recent_size, release_all, row_names, row_views, slot_orderly, sum_over, user_active_size,
    user_fresh_size, user_recent_size, Refusal, TrackerView, UserMaxUniqueIpsMode,
    CLEANUP_DRAIN_BATCH_LIMIT, COMPACT_INTERVAL_SECS, MAX_ACTIVE_IP_ENTRIES, MAX_RECENT_IP_ENTRIES,
};
use crate::tracker_sums::{
    lemma_admitted_keeps, lemma_compacted_keeps, lemma_fresh_total_bounded, lemma_pruned_keeps,
    lemma_released_keeps, lemma_sum_member, lemma_sum_prefix, lemma_sum_take, lemma_sum_update,
    lemma_sum_zero, lemma_touched_keeps, lemma_user_totals_bounded, lemma_without_user_keeps,
};
use crate::user_map::UserMap;

verus! {

/// Tracks active and recent client addresses for per-user admission control.
///
/// The state is split over a power of two of shards; a pair of user and address
/// belongs to the shard that its hash selects.
pub struct UserIpTracker {
    shards: Vec<UserIpShardSlot>,
    shard_mask: usize,
    active_entry_count: u64,
    recent_entry_count: u64,
    active_cap_rejects: u64,
    recent_cap_rejects: u64,
    cleanup_deferred_releases: u64,
    max_ips: UserMap<usize>,
    default_max_ips: usize,
    limit_mode: UserMaxUniqueIpsMode,
    limit_window_secs: u64,
    last_compact_epoch_secs: u64,
    cleanup_queue: CleanupQueue,
    clock: ProcessClock,
}

/// Point-in-time counters of a tracker.
#[derive(Clone, Copy, Debug, PartialEq, Eq, Structural)]
pub struct UserIpTrackerMemoryStats {
    /// Number of users with an open session.
    pub active_users: usize,
    /// Number of users with a recently seen address.
    pub recent_users: usize,
    /// Number of active `(user, address)` entries.
    pub active_entries: usize,
    /// Number of recent `(user, address)` entries.
    pub recent_entries: usize,
    /// Number of pairs with releases that wait to be applied.
    pub cleanup_queue_len: usize,
    /// Number of sessions refused because of the cap on active entries.
    pub active_cap_rejects: u64,
    /// Number of sessions refused because of the cap on recent entries.
    pub recent_cap_rejects: u64,
    /// Number of releases that went through the queue.
    pub cleanup_deferred_releases: u64,
}

/// What the shards hold.
pub open spec fn slot_views(shards: Seq<UserIpShardSlot>) -> Seq<SlotView> {
    shards.map_values(|slot: UserIpShardSlot| slot@)
}

impl View for UserIpTracker {
    type V = TrackerView;

    closed spec fn view(&self) -> TrackerView {
        TrackerView {
            shards: slot_views(self.shards@),
            limits: self.max_ips@,
            default_limit: self.default_max_ips,
            mode: self.limit_mode,
            window_secs: self.limit_window_secs,
            last_compact_epoch_secs: self.last_compact_epoch_secs,
            queue: self.cleanup_queue@,
            active_cap_rejects: self.active_cap_rejects,
            recent_cap_rejects: self.recent_cap_rejects,
            deferred_releases: self.cleanup_deferred_releases,
        }
    }
}

impl UserIpTracker {
    /// The shards are in order: their number fits the mask, and each is well
    /// formed and holds only its own pairs.
    spec fn shards_wf(&self) -> bool {
        &&& 1 <= self.shards.len() <= 1024
        &&& self.shard_mask == self.shards.len() - 1
        &&& is_power_of_two(self.shards.len() as nat)
        &&& forall|i: int| 0 <= i < self.shards.len() ==> (#[trigger] self.shards[i]).wf()
        &&& forall|i: int|
            0 <= i < self.shards.len() ==> slot_orderly(
                (#[trigger] self.shards[i])@,
                i,
                self.shard_mask,
            )
    }

    /// The state is sound, and the entry counters are exact.
    pub closed spec fn wf(&self) -> bool {
        &&& self.shards_wf()
        &&& self.active_entry_count == self@.active_total()
        &&& self.recent_entry_count == self@.recent_total()
        &&& self.active_entry_count <= MAX_ACTIVE_IP_ENTRIES
        &&& self.recent_entry_count <= MAX_RECENT_IP_ENTRIES
        &&& self.limit_window_secs >= 1
        &&& queue_sound(self.cleanup_queue@)
        &&& self.clock.wf()
    }

    /// What the clocks showed whenever they were read, in order.
    pub closed spec fn readings(&self) -> Seq<Clock> {
        self.clock.readings()
    }

    /// What well-formedness says of the state.
    pub proof fn lemma_sound(&self)
        requires
            self.wf(),
        ensures
            self@.sound(),
    {
        assert forall|i: int| 0 <= i < self@.shards.len() implies (
        #[trigger] self@.shards[i]).sound() by {
            self.shards[i].lemma_sound();
        }
        assert forall|i: int| 0 <= i < self@.shards.len() implies slot_orderly(
            #[trigger] self@.shards[i],
            i,
            self@.mask(),
        ) by {
            assert(self@.shards[i] == self.shards[i]@);
        }
    }

    /// A tracker without users, with the number of shards that `shard_setting`
    /// asks for.
    pub fn new(shard_setting: Option<&str>) -> (res: Self)
        ensures
            res.wf(),
            res.readings() == Seq::<Clock>::empty(),
            is_rounded_up(
                res@.shards.len(),
                requested_shards(
                    match shard_setting {
                        Some(text) => Some(text@),
                        None => None,
                    },
                ),
            ),
            forall|i: int| 0 <= i < res@.shards.len() ==> #[trigger] res@.shards[i] == SlotView::empty(),
            res@ == (TrackerView {
                shards: res@.shards,
                limits: Map::empty(),
                default_limit: 0,
                mode: UserMaxUniqueIpsMode::ActiveWindow,
                window_secs: 30,
                last_compact_epoch_secs: 0,
                queue: Seq::empty(),
                active_cap_rejects: 0,
                recent_cap_rejects: 0,
                deferred_releases: 0,
            }),
    {
        let shard_count = shard_count_for(shard_setting);
        let mut shards: Vec<UserIpShardSlot> = Vec::new();
        let mut i: usize = 0;
        while i < shard_count
            invariant
                i <= shard_count,
                shards.len() == i,
                forall|j: int|
                    0 <= j < i ==> (#[trigger] shards[j]).wf() && shards[j]@ == SlotView::empty(),
            decreases shard_count - i,
        {
            shards.push(UserIpShardSlot::new());
            i += 1;
        }
        let res = UserIpTracker {
            shards,
            shard_mask: shard_count - 1,
            active_entry_count: 0,
            recent_entry_count: 0,
            active_cap_rejects: 0,
            recent_cap_rejects: 0,
            cleanup_deferred_releases: 0,
            max_ips: UserMap::new(),
            default_max_ips: 0,
            limit_mode: UserMaxUniqueIpsMode::ActiveWindow,
            limit_window_secs: 30,
            last_compact_epoch_secs: 0,
            cleanup_queue: CleanupQueue::new(),
            clock: ProcessClock::start(),
        };
        proof {
            lemma_sum_zero(res@.shards, active_size());
            lemma_sum_zero(res@.shards, recent_size());
        }
        res
    }

    /// Number of shards.
    pub fn shard_count(&self) -> (res: usize)
        ensures
            res == self@.shards.len(),
    {
        self.shards.len()
    }

    /// Lowers a counter by `amount`, stopping at zero.
    fn decrement_counter(counter: u64, amount: usize) -> (res: u64)
        ensures
            res == (if counter >= amount {
                counter - amount
            } else {
                0
            }),
    {
        counter.saturating_sub(amount as u64)
    }

    /// Queues the end of one session of a pair for a later drain.
    pub fn enqueue_cleanup(&mut self, user: String, ip: IpAddr)
        requires
            old(self).wf(),
        ensures
            final(self).wf(),
            final(self).readings() == old(self).readings(),
            final(self)@ == (TrackerView {
                queue: queue_with(old(self)@.queue, user@, ip),
                deferred_releases: old(self)@.deferred_releases.wrapping_add(1),
                ..old(self)@
            }),
    {
        self.cleanup_queue.push(user, ip);
        self.cleanup_deferred_releases = self.cleanup_deferred_releases.wrapping_add(1);
    }

    /// Applies the queued releases that come first.
    pub fn drain_cleanup_queue(&mut self)
        requires
            old(self).wf(),
        ensures
            final(self).wf(),
            final(self).readings() == old(self).readings(),
            final(self)@ == old(self)@.drained(),
    {
        if self.cleanup_queue.len() == 0 {
            assert(self@.queue.take(0) =~= Seq::empty());
            assert(self@.queue.skip(0) =~= self@.queue);
            return;
        }
        let ghost before = self@;
        let batch = self.cleanup_queue.take_front(CLEANUP_DRAIN_BATCH_LIMIT);
        let ghost releases = release_views(batch@);
        let mut removed_active_entries: usize = 0;
        let mut i: usize = 0;
        assert(releases.take(0) =~= Seq::empty());
        while i < batch.len()
            invariant
                i <= batch.len(),
                batch.len() <= 1024,
                releases == release_views(batch@),
                self.shards_wf(),
                self.clock == old(self).clock,
                self.clock.wf(),
                self@ == (TrackerView {
                    shards: release_all(before.shards, releases.take(i as int)),
                    queue: self@.queue,
                    ..before
                }),
                self@.shards.len() == before.shards.len(),
                queue_sound(self.cleanup_queue@),
                self@.queue == before.queue.skip(before.batch_len()),
                self@.active_total() + removed_active_entries == before.active_total(),
                self@.recent_total() == before.recent_total(),
                removed_active_entries <= i,
                self.active_entry_count == before.active_total(),
                self.recent_entry_count == before.recent_total(),
                self.limit_window_secs >= 1,
            decreases batch.len() - i,
        {
            let ghost prior = self@;
            let ip = batch[i].ip;
            let idx = shard_index(batch[i].user.as_str(), ip, self.shard_mask);
            proof {
                self.shards[idx as int].lemma_sound();
            }
            let removed = self.shards[idx].apply_active_cleanup_shard(
                &batch[i].user,
                ip,
                batch[i].count,
            );
            proof {
                let slot = prior.shards[idx as int];
                let after = slot.released(batch[i as int].user@, ip, batch[i as int].count);
                lemma_released_keeps(
                    slot,
                    batch[i as int].user@,
                    ip,
                    batch[i as int].count,
                    idx as int,
                    self.shard_mask,
                );
                assert(self@.shards =~= prior.shards.update(idx as int, after));
                lemma_sum_update(prior.shards, idx as int, after, active_size());
                lemma_sum_update(prior.shards, idx as int, after, recent_size());
                assert(releases.take(i + 1).drop_last() =~= releases.take(i as int));
                assert(releases.take(i + 1).last() == batch[i as int]@);
            }
            removed_active_entries = removed_active_entries.saturating_add(removed);
            i += 1;
        }
        assert(releases.take(batch.len() as int) =~= releases);
        self.active_entry_count =
        Self::decrement_counter(self.active_entry_count, removed_active_entries);
    }

    /// Compacts every shard if a compaction is due.
    pub fn maybe_compact_empty_users_at(&mut self, clock: Clock)
        requires
            old(self).wf(),
        ensures
            final(self).wf(),
            final(self).readings() == old(self).readings(),
            final(self)@ == old(self)@.compacted(clock),
    {
        if clock.epoch_secs.saturating_sub(self.last_compact_epoch_secs) < COMPACT_INTERVAL_SECS {
            return;
        }
        self.last_compact_epoch_secs = clock.epoch_secs;
        let window = self.limit_window_secs;
        let now = clock.instant_nanos;
        let ghost before = self@;
        let ghost target = old(self)@.compacted(clock);
        let mut pruned_recent_entries: usize = 0;
        let mut i: usize = 0;
        while i < self.shards.len()
            invariant
                i <= self.shards.len(),
                self.shards_wf(),
                self.clock == old(self).clock,
                self.clock.wf(),
                target == (TrackerView {
                    shards: before.shards.map_values(|slot: SlotView| slot.compacted(now, window)),
                    ..before
                }),
                self@ == (TrackerView { shards: self@.shards, ..before }),
                self@.shards.len() == before.shards.len(),
                forall|j: int| 0 <= j < i ==> #[trigger] self@.shards[j] == target.shards[j],
                forall|j: int|
                    i <= j < before.shards.len() ==> #[trigger] self@.shards[j] == before.shards[j],
                self@.recent_total() + pruned_recent_entries == before.recent_total(),
                self@.active_total() == before.active_total(),
                before.recent_total() <= MAX_RECENT_IP_ENTRIES,
                before.active_total() <= MAX_ACTIVE_IP_ENTRIES,
                self.active_entry_count == before.active_total(),
                self.recent_entry_count == before.recent_total(),
                self.limit_window_secs >= 1,
                queue_sound(self.cleanup_queue@),
            decreases self.shards.len() - i,
        {
            let ghost prior = self@;
            proof {
                self.shards[i as int].lemma_sound();
            }
            let pruned = self.shards[i].compact(now, window);
            proof {
                let slot = prior.shards[i as int];
                let after = slot.compacted(now, window);
                lemma_compacted_keeps(slot, now, window, i as int, self.shard_mask);
                assert(self@.shards =~= prior.shards.update(i as int, after));
                lemma_sum_update(prior.shards, i as int, after, active_size());
                lemma_sum_update(prior.shards, i as int, after, recent_size());
            }
            pruned_recent_entries = pruned_recent_entries.saturating_add(pruned);
            i += 1;
        }
        self.recent_entry_count =
        Self::decrement_counter(self.recent_entry_count, pruned_recent_entries);
        assert(self@.shards =~= target.shards);
    }

    /// The limit that applies to `username`.
    fn limit_for(&self, username: &String) -> (res: Option<usize>)
        ensures
            res == self@.limit_of(username@),
    {
        if let Some(limit) = self.max_ips.get(username) {
            if *limit > 0 {
                return Some(*limit);
            }
        }
        if self.default_max_ips > 0 {
            Some(self.default_max_ips)
        } else {
            None
        }
    }

    /// Lets the home shard of a pair know the user and drop what left the window.
    fn touch_home(&mut self, username: &String, ip: IpAddr, now: u64) -> (res: usize)
        requires
            old(self).wf(),
        ensures
            final(self).wf(),
            final(self).readings() == old(self).readings(),
            final(self)@ == old(self)@.touched(username@, ip, now),
            res == final(self)@.home(username@, ip),
            res < final(self).shards.len(),
    {
        let idx = shard_index(username.as_str(), ip, self.shard_mask);
        let window = self.limit_window_secs;
        let ghost before = self@;
        proof {
            self.shards[idx as int].lemma_sound();
        }
        let pruned = self.shards[idx].touch(username, now, window);
        proof {
            let slot = before.shards[idx as int];
            let after = slot.touched(username@, now, window);
            lemma_touched_keeps(slot, username@, now, window, idx as int, self.shard_mask);
            assert(self@.shards =~= before.shards.update(idx as int, after));
            lemma_sum_update(before.shards, idx as int, after, active_size());
            lemma_sum_update(before.shards, idx as int, after, recent_size());
            lemma_sum_member(before.shards, idx as int, recent_size());
        }
        self.recent_entry_count = Self::decrement_counter(self.recent_entry_count, pruned);
        idx
    }

    /// Records `sessions` sessions of a pair, seen at `now`, in its home shard.
    fn record_session(&mut self, idx: usize, username: &String, ip: IpAddr, sessions: usize, now: u64)
        requires
            old(self).wf(),
            idx == old(self)@.home(username@, ip),
            sessions >= 1,
            old(self)@.is_active(username@, ip) || !old(self)@.active_full(),
            old(self)@.is_recent(username@, ip) || !old(self)@.recent_full(),
        ensures
            final(self).wf(),
            final(self).readings() == old(self).readings(),
            final(self)@ == old(self)@.admitted(username@, ip, sessions, now),
    {
        let ghost before = self@;
        proof {
            lemma_home_shard_in_range(username@, ip, self.shard_mask);
            self.shards[idx as int].lemma_sound();
        }
        let new_active = self.shards[idx].active.set(username, ip, sessions);
        let new_recent = self.shards[idx].recent.set(username, ip, now);
        proof {
            let slot = before.shards[idx as int];
            let after = slot.admitted(username@, ip, sessions, now);
            lemma_admitted_keeps(slot, username@, ip, sessions, now, self.shard_mask);
            assert(self@.shards =~= before.shards.update(idx as int, after));
            lemma_sum_update(before.shards, idx as int, after, active_size());
            lemma_sum_update(before.shards, idx as int, after, recent_size());
        }
        if new_active {
            self.active_entry_count = self.active_entry_count + 1;
        }
        if new_recent {
            self.recent_entry_count = self.recent_entry_count + 1;
        }
    }

    /// Drops what `username` owns outside the window in every shard, and counts
    /// its active and recent addresses.
    fn prune_and_count(&mut self, username: &String, now: u64) -> (res: (usize, usize))
        requires
            old(self).wf(),
        ensures
            final(self).wf(),
            final(self).readings() == old(self).readings(),
            final(self)@ == old(self)@.pruned(username@, now),
            res.0 == final(self)@.user_active_total(username@),
            res.1 == final(self)@.user_recent_total(username@),
    {
        let window = self.limit_window_secs;
        let ghost user = username@;
        let ghost before = self@;
        let ghost target = before.pruned(user, now);
        proof {
            self.lemma_sound();
            lemma_pruned_sound(before, user, now);
            lemma_user_totals_bounded(target.shards, user);
        }
        let mut user_active_total: usize = 0;
        let mut user_recent_total: usize = 0;
        let mut pruned_recent_total: usize = 0;
        let mut i: usize = 0;
        while i < self.shards.len()
            invariant
                i <= self.shards.len(),
                self.shards_wf(),
                self.clock == old(self).clock,
                self.clock.wf(),
                user == username@,
                before.window_secs == window,
                target == before.pruned(user, now),
                target.sound(),
                target.user_active_total(user) <= target.active_total(),
                target.user_recent_total(user) <= target.recent_total(),
                self@ == (TrackerView { shards: self@.shards, ..before }),
                self@.shards.len() == before.shards.len(),
                forall|j: int| 0 <= j < i ==> #[trigger] self@.shards[j] == target.shards[j],
                forall|j: int|
                    i <= j < before.shards.len() ==> #[trigger] self@.shards[j] == before.shards[j],
                self@.recent_total() + pruned_recent_total == before.recent_total(),
                self@.active_total() == before.active_total(),
                before.recent_total() <= MAX_RECENT_IP_ENTRIES,
                before.active_total() <= MAX_ACTIVE_IP_ENTRIES,
                self.active_entry_count == before.active_total(),
                self.recent_entry_count == before.recent_total(),
                self.limit_window_secs >= 1,
                queue_sound(self.cleanup_queue@),
                user_active_total == sum_over(
                    target.shards.take(i as int),
                    user_active_size(user),
                ),
                user_recent_total == sum_over(
                    target.shards.take(i as int),
                    user_recent_size(user),
                ),
            decreases self.shards.len() - i,
        {
            let ghost prior = self@;
            proof {
                self.shards[i as int].lemma_sound();
            }
            let pruned = self.shards[i].recent.prune(Some(username), now, window);
            proof {
                let slot = prior.shards[i as int];
                let after = slot.pruned(user, now, window);
                lemma_pruned_keeps(slot, user, now, window, i as int, self.shard_mask);
                assert(self@.shards =~= prior.shards.update(i as int, after));
                lemma_sum_update(prior.shards, i as int, after, active_size());
                lemma_sum_update(prior.shards, i as int, after, recent_size());
                lemma_sum_take(target.shards, i as int, user_active_size(user));
                lemma_sum_take(target.shards, i as int, user_recent_size(user));
                lemma_sum_prefix(target.shards, i + 1, user_active_size(user));
                lemma_sum_prefix(target.shards, i + 1, user_recent_size(user));
            }
            pruned_recent_total = pruned_recent_total.saturating_add(pruned);
            user_recent_total =
            user_recent_total.saturating_add(self.shards[i].recent.count_of(username));
            user_active_total =
            user_active_total.saturating_add(self.shards[i].active.count_of(username));
            i += 1;
        }
        self.recent_entry_count =
        Self::decrement_counter(self.recent_entry_count, pruned_recent_total);
        assert(self@.shards =~= target.shards);
        assert(target.shards.take(i as int) =~= target.shards);
        (user_active_total, user_recent_total)
    }

    /// Attempts to open a session of `username` from `ip` at the given time.
    ///
    /// Queued releases are applied first and a due compaction is run. A pair
    /// with a session is let in whatever the limits say; another pair is
    /// subject to the limit of the user and to the caps of the tracker.
    pub fn check_and_add_at(&mut self, username: &str, ip: IpAddr, clock: Clock) -> (res: Result<
        (),
        String,
    >)
        requires
            old(self).wf(),
        ensures
            final(self).wf(),
            final(self).readings() == old(self).readings(),
            final(self)@ == old(self)@.admission(username@, ip, clock).0,
            match old(self)@.admission(username@, ip, clock).1 {
                None => res is Ok,
                Some(refusal) => res matches Err(text) && text@ == refusal.text(username@),
            },
    {
        self.drain_cleanup_queue();
        self.maybe_compact_empty_users_at(clock);
        let user = username.to_owned();
        let now = clock.instant_nanos;
        let idx = self.touch_home(&user, ip, now);
        match self.shards[idx].active.get(&user, ip) {
            Some(count) => {
                if !self.shards[idx].recent.contains(&user, ip) && self.recent_entry_count
                    >= MAX_RECENT_IP_ENTRIES {
                    self.recent_cap_rejects = self.recent_cap_rejects.wrapping_add(1);
                    let refusal = Refusal::RecentCap { entries: self.recent_entry_count };
                    return Err(refusal.message(username));
                }
                self.record_session(idx, &user, ip, count.saturating_add(1), now);
                Ok(())
            },
            None => self.admit_new_pair(idx, username, &user, ip, now),
        }
    }

    /// Attempts to open the first session of a pair.
    fn admit_new_pair(
        &mut self,
        idx: usize,
        username: &str,
        user: &String,
        ip: IpAddr,
        now: u64,
    ) -> (res: Result<(), String>)
        requires
            old(self).wf(),
            username@ == user@,
            idx == old(self)@.home(username@, ip),
            !old(self)@.is_active(username@, ip),
        ensures
            final(self).wf(),
            final(self).readings() == old(self).readings(),
            final(self)@ == old(self)@.first_contact(username@, ip, now).0,
            match old(self)@.first_contact(username@, ip, now).1 {
                None => res is Ok,
                Some(refusal) => res matches Err(text) && text@ == refusal.text(username@),
            },
    {
        let (user_active_total, user_recent_total) = self.prune_and_count(user, now);
        proof {
            lemma_home_shard_in_range(username@, ip, self.shard_mask);
        }
        let is_new_ip = !self.shards[idx].recent.contains(user, ip);
        if let Some(limit) = self.limit_for(user) {
            let active_limit_reached = user_active_total >= limit;
            let recent_limit_reached = user_recent_total >= limit && is_new_ip;
            let deny = match self.limit_mode {
                UserMaxUniqueIpsMode::ActiveWindow => active_limit_reached,
                UserMaxUniqueIpsMode::TimeWindow => recent_limit_reached,
                UserMaxUniqueIpsMode::Combined => active_limit_reached || recent_limit_reached,
            };
            if deny {
                let refusal = Refusal::UserLimit {
                    active: user_active_total,
                    recent: user_recent_total,
                    limit,
                    mode: self.limit_mode,
                };
                return Err(refusal.message(username));
            }
        }
        if self.active_entry_count >= MAX_ACTIVE_IP_ENTRIES {
            self.active_cap_rejects = self.active_cap_rejects.wrapping_add(1);
            let refusal = Refusal::ActiveCap { entries: self.active_entry_count };
            return Err(refusal.message(username));
        }
        if is_new_ip && self.recent_entry_count >= MAX_RECENT_IP_ENTRIES {
            self.recent_cap_rejects = self.recent_cap_rejects.wrapping_add(1);
            let refusal = Refusal::RecentCap { entries: self.recent_entry_count };
            return Err(refusal.message(username));
        }
        self.record_session(idx, user, ip, 1, now);
        Ok(())
    }

    /// Attempts to open a session of `username` from `ip` now.
    pub fn check_and_add(&mut self, username: &str, ip: IpAddr) -> (res: Result<(), String>)
        requires
            old(self).wf(),
        ensures
            final(self).wf(),
            one_more_reading(old(self).readings(), final(self).readings()),
            ({
                let clock = final(self).readings().last();
                let outcome = old(self)@.admission(username@, ip, clock);
                &&& final(self)@ == outcome.0
                &&& match outcome.1 {
                    None => res is Ok,
                    Some(refusal) => res matches Err(text) && text@ == refusal.text(username@),
                }
            }),
    {
        let clock = self.clock.read();
        self.check_and_add_at(username, ip, clock)
    }

    /// Ends one session of `username` from `ip` at the given time.
    pub fn remove_ip_at(&mut self, username: &str, ip: IpAddr, clock: Clock)
        requires
            old(self).wf(),
        ensures
            final(self).wf(),
            final(self).readings() == old(self).readings(),
            final(self)@ == old(self)@.departure(username@, ip, clock),
    {
        self.maybe_compact_empty_users_at(clock);
        let user = username.to_owned();
        let idx = shard_index(username, ip, self.shard_mask);
        let ghost before = self@;
        proof {
            self.shards[idx as int].lemma_sound();
        }
        let removed = self.shards[idx].apply_active_cleanup_shard(&user, ip, 1);
        proof {
            let slot = before.shards[idx as int];
            let after = slot.released(user@, ip, 1);
            lemma_released_keeps(slot, user@, ip, 1, idx as int, self.shard_mask);
            assert(self@.shards =~= before.shards.update(idx as int, after));
            lemma_sum_update(before.shards, idx as int, after, active_size());
            lemma_sum_update(before.shards, idx as int, after, recent_size());
            lemma_sum_member(before.shards, idx as int, active_size());
        }
        self.active_entry_count = Self::decrement_counter(self.active_entry_count, removed);
    }

    /// Ends one session of `username` from `ip` now.
    pub fn remove_ip(&mut self, username: &str, ip: IpAddr)
        requires
            old(self).wf(),
        ensures
            final(self).wf(),
            one_more_reading(old(self).readings(), final(self).readings()),
            final(self)@ == old(self)@.departure(username@, ip, final(self).readings().last()),
    {
        let clock = self.clock.read();
        self.remove_ip_at(username, ip, clock);
    }

    /// One pass of maintenance at the given time: a drain, and a compaction if due.
    pub fn run_periodic_maintenance_at(&mut self, clock: Clock)
        requires
            old(self).wf(),
        ensures
            final(self).wf(),
            final(self).readings() == old(self).readings(),
            final(self)@ == old(self)@.drained().compacted(clock),
    {
        self.drain_cleanup_queue();
        self.maybe_compact_empty_users_at(clock);
    }

    /// One pass of maintenance now.
    pub fn run_periodic_maintenance(&mut self)
        requires
            old(self).wf(),
        ensures
            final(self).wf(),
            one_more_reading(old(self).readings(), final(self).readings()),
            final(self)@ == old(self)@.drained().compacted(final(self).readings().last()),
    {
        let clock = self.clock.read();
        self.run_periodic_maintenance_at(clock);
    }

    /// Chooses what limits count, and over how many seconds; at least one.
    pub fn set_limit_policy(&mut self, mode: UserMaxUniqueIpsMode, window_secs: u64)
        requires
            old(self).wf(),
        ensures
            final(self).wf(),
            final(self).readings() == old(self).readings(),
            final(self)@ == (TrackerView {
                mode,
                window_secs: if window_secs < 1 {
                    1
                } else {
                    window_secs
                },
                ..old(self)@
            }),
    {
        self.limit_mode = mode;
        self.limit_window_secs = if window_secs < 1 {
            1
        } else {
            window_secs
        };
    }

    /// Gives `username` a limit of its own; zero stands for none.
    pub fn set_user_limit(&mut self, username: &str, max_ips: usize)
        requires
            old(self).wf(),
        ensures
            final(self).wf(),
            final(self).readings() == old(self).readings(),
            final(self)@ == (TrackerView {
                limits: old(self)@.limits.insert(username@, max_ips),
                ..old(self)@
            }),
    {
        self.max_ips.insert(username.to_owned(), max_ips);
    }

    /// Takes the limit of `username` away.
    pub fn remove_user_limit(&mut self, username: &str)
        requires
            old(self).wf(),
        ensures
            final(self).wf(),
            final(self).readings() == old(self).readings(),
            final(self)@ == (TrackerView {
                limits: old(self)@.limits.remove(username@),
                ..old(self)@
            }),
    {
        let user = username.to_owned();
        self.max_ips.remove(&user);
    }

    /// Replaces the default limit and all limits of single users.
    pub fn load_limits(&mut self, default_limit: usize, limits: &UserMap<usize>)
        requires
            old(self).wf(),
        ensures
            final(self).wf(),
            final(self).readings() == old(self).readings(),
            final(self)@ == (TrackerView { limits: limits@, default_limit, ..old(self)@ }),
    {
        self.default_max_ips = default_limit;
        self.max_ips = limits.duplicate();
    }

    /// The limit that applies to `username`.
    pub fn get_user_limit(&self, username: &str) -> (res: Option<usize>)
        ensures
            res == self@.limit_of(username@),
    {
        let user = username.to_owned();
        self.limit_for(&user)
    }

    /// Takes out everything about `username`; queued releases stay.
    pub fn clear_user_ips(&mut self, username: &str)
        requires
            old(self).wf(),
        ensures
            final(self).wf(),
            final(self).readings() == old(self).readings(),
            final(self)@ == old(self)@.without_user(username@),
    {
        let user = username.to_owned();
        let ghost before = self@;
        let ghost target = before.without_user(user@);
        let mut removed_active_entries: usize = 0;
        let mut removed_recent_entries: usize = 0;
        let mut i: usize = 0;
        while i < self.shards.len()
            invariant
                i <= self.shards.len(),
                self.shards_wf(),
                self.clock == old(self).clock,
                self.clock.wf(),
                user@ == username@,
                target == before.without_user(user@),
                self@ == (TrackerView { shards: self@.shards, ..before }),
                self@.shards.len() == before.shards.len(),
                forall|j: int| 0 <= j < i ==> #[trigger] self@.shards[j] == target.shards[j],
                forall|j: int|
                    i <= j < before.shards.len() ==> #[trigger] self@.shards[j] == before.shards[j],
                self@.active_total() + removed_active_entries == before.active_total(),
                self@.recent_total() + removed_recent_entries == before.recent_total(),
                before.recent_total() <= MAX_RECENT_IP_ENTRIES,
                before.active_total() <= MAX_ACTIVE_IP_ENTRIES,
                self.active_entry_count == before.active_total(),
                self.recent_entry_count == before.recent_total(),
                self.limit_window_secs >= 1,
                queue_sound(self.cleanup_queue@),
            decreases self.shards.len() - i,
        {
            let ghost prior = self@;
            proof {
                self.shards[i as int].lemma_sound();
            }
            let active = self.shards[i].active.remove_user(&user);
            let recent = self.shards[i].recent.remove_user(&user);
            proof {
                let slot = prior.shards[i as int];
                let after = slot.without_user(user@);
                lemma_without_user_keeps(slot, user@, i as int, self.shard_mask);
                assert(self@.shards =~= prior.shards.update(i as int, after));
                lemma_sum_update(prior.shards, i as int, after, active_size());
                lemma_sum_update(prior.shards, i as int, after, recent_size());
                lemma_sum_member(prior.shards, i as int, active_size());
                lemma_sum_member(prior.shards, i as int, recent_size());
            }
            removed_active_entries = removed_active_entries.saturating_add(active);
            removed_recent_entries = removed_recent_entries.saturating_add(recent);
            i += 1;
        }
        self.active_entry_count =
        Self::decrement_counter(self.active_entry_count, removed_active_entries);
        self.recent_entry_count =
        Self::decrement_counter(self.recent_entry_count, removed_recent_entries);
        assert(self@.shards =~= target.shards);
    }

    /// Takes out everything about all users; queued releases stay.
    pub fn clear_all(&mut self)
        requires
            old(self).wf(),
        ensures
            final(self).wf(),
            final(self).readings() == old(self).readings(),
            final(self)@ == old(self)@.cleared(),
    {
        let ghost before = self@;
        let mut i: usize = 0;
        while i < self.shards.len()
            invariant
                i <= self.shards.len(),
                self.shards_wf(),
                self.clock == old(self).clock,
                self.clock.wf(),
                self@ == (TrackerView { shards: self@.shards, ..before }),
                self@.shards.len() == before.shards.len(),
                forall|j: int| 0 <= j < i ==> #[trigger] self@.shards[j] == SlotView::empty(),
                self.limit_window_secs >= 1,
                queue_sound(self.cleanup_queue@),
            decreases self.shards.len() - i,
        {
            let ghost prior = self@;
            self.shards.set(i, UserIpShardSlot::new());
            assert(self@.shards =~= prior.shards.update(i as int, SlotView::empty()));
            i += 1;
        }
        self.active_entry_count = 0;
        self.recent_entry_count = 0;
        proof {
            assert(self@.shards =~= before.cleared().shards);
            lemma_sum_zero(self@.shards, active_size());
            lemma_sum_zero(self@.shards, recent_size());
        }
    }

    /// Applies queued releases, and tells whether a pair has an open session.
    pub fn is_ip_active(&mut self, username: &str, ip: IpAddr) -> (res: bool)
        requires
            old(self).wf(),
        ensures
            final(self).wf(),
            final(self).readings() == old(self).readings(),
            final(self)@ == old(self)@.drained(),
            res == final(self)@.is_active(username@, ip),
    {
        self.drain_cleanup_queue();
        let user = username.to_owned();
        let idx = shard_index(username, ip, self.shard_mask);
        self.shards[idx].active.contains(&user, ip)
    }

    /// How many addresses of `username` have an open session.
    fn count_active(&self, username: &String) -> (res: usize)
        requires
            self.wf(),
        ensures
            res == self@.user_active_total(username@),
    {
        let ghost user = username@;
        proof {
            self.lemma_sound();
            lemma_user_totals_bounded(self@.shards, user);
        }
        let mut total: usize = 0;
        let mut i: usize = 0;
        while i < self.shards.len()
            invariant
                i <= self.shards.len(),
                self.wf(),
                user == username@,
                self@.user_active_total(user) <= MAX_ACTIVE_IP_ENTRIES,
                total == sum_over(self@.shards.take(i as int), user_active_size(user)),
            decreases self.shards.len() - i,
        {
            proof {
                lemma_sum_take(self@.shards, i as int, user_active_size(user));
                lemma_sum_prefix(self@.shards, i + 1, user_active_size(user));
            }
            total = total.saturating_add(self.shards[i].active.count_of(username));
            i += 1;
        }
        assert(self@.shards.take(i as int) =~= self@.shards);
        total
    }

    /// Applies queued releases, and counts the addresses of `username` with an
    /// open session.
    pub fn get_active_ip_count(&mut self, username: &str) -> (res: usize)
        requires
            old(self).wf(),
        ensures
            final(self).wf(),
            final(self).readings() == old(self).readings(),
            final(self)@ == old(self)@.drained(),
            res == final(self)@.user_active_total(username@),
    {
        self.drain_cleanup_queue();
        let user = username.to_owned();
        self.count_active(&user)
    }

    /// The addresses of `username` with an open session, each once.
    fn active_ips_of(&self, username: &String) -> (res: Vec<IpAddr>)
        requires
            self.wf(),
        ensures
            res@.no_duplicates(),
            res@.to_set() == self@.active_ips(username@),
    {
        let ghost user = username@;
        let ghost all = self@.active_ips(user);
        proof {
            self.lemma_sound();
        }
        let mut out: Vec<IpAddr> = Vec::new();
        let mut i: usize = 0;
        assert(out@.to_set() =~= all.filter(|ip: IpAddr| self@.home(user, ip) < 0));
        while i < self.shards.len()
            invariant
                i <= self.shards.len(),
                self.wf(),
                self@.sound(),
                user == username@,
                all == self@.active_ips(user),
                out@.no_duplicates(),
                out@.to_set() == all.filter(|ip: IpAddr| self@.home(user, ip) < i),
            decreases self.shards.len() - i,
        {
            let more = self.shards[i].active.ips_of(username);
            let ghost before = out@.to_set();
            let ghost here = self@.shards[i as int].active.user_ips(user);
            proof {
                assert(slot_orderly(self@.shards[i as int], i as int, self@.mask()));
                assert(forall|ip: IpAddr| here.contains(ip) ==> self@.home(user, ip) == i);
            }
            append_distinct(&mut out, more);
            proof {
                assert(before + here =~= all.filter(|ip: IpAddr| self@.home(user, ip) < i + 1));
            }
            i += 1;
        }
        proof {
            assert forall|ip: IpAddr| self@.home(user, ip) < i by {
                lemma_home_shard_in_range(user, ip, self@.mask());
            }
            assert(out@.to_set() =~= all);
        }
        out
    }

    /// The addresses of `username` seen within the window, each once.
    fn fresh_ips_of(&self, username: &String, now: u64) -> (res: Vec<IpAddr>)
        requires
            self.wf(),
        ensures
            res@.no_duplicates(),
            res@.to_set() == self@.fresh_ips(username@, now),
    {
        let ghost user = username@;
        let ghost all = self@.fresh_ips(user, now);
        proof {
            self.lemma_sound();
        }
        let window = self.limit_window_secs;
        let mut out: Vec<IpAddr> = Vec::new();
        let mut i: usize = 0;
        assert(out@.to_set() =~= all.filter(|ip: IpAddr| self@.home(user, ip) < 0));
        while i < self.shards.len()
            invariant
                i <= self.shards.len(),
                self.wf(),
                self@.sound(),
                user == username@,
                window == self@.window_secs,
                all == self@.fresh_ips(user, now),
                out@.no_duplicates(),
                out@.to_set() == all.filter(|ip: IpAddr| self@.home(user, ip) < i),
            decreases self.shards.len() - i,
        {
            let more = self.shards[i].recent.fresh_ips_of(username, now, window);
            let ghost before = out@.to_set();
            let ghost here = self@.shards[i as int].recent.fresh_ips(user, now, window);
            proof {
                assert(slot_orderly(self@.shards[i as int], i as int, self@.mask()));
                assert(forall|ip: IpAddr| here.contains(ip) ==> self@.home(user, ip) == i);
            }
            append_distinct(&mut out, more);
            proof {
                assert(before + here =~= all.filter(|ip: IpAddr| self@.home(user, ip) < i + 1));
            }
            i += 1;
        }
        proof {
            assert forall|ip: IpAddr| self@.home(user, ip) < i by {
                lemma_home_shard_in_range(user, ip, self@.mask());
            }
            assert(out@.to_set() =~= all);
        }
        out
    }

    /// Applies queued releases, and lists the addresses of `username` with an
    /// open session, each once.
    pub fn get_active_ips(&mut self, username: &str) -> (res: Vec<IpAddr>)
        requires
            old(self).wf(),
        ensures
            final(self).wf(),
            final(self).readings() == old(self).readings(),
            final(self)@ == old(self)@.drained(),
            res@.no_duplicates(),
            res@.to_set() == final(self)@.active_ips(username@),
    {
        self.drain_cleanup_queue();
        let user = username.to_owned();
        self.active_ips_of(&user)
    }

    /// Whether a pair is among the recently seen ones.
    pub fn recent_contains(&self, username: &str, ip: IpAddr) -> (res: bool)
        requires
            self.wf(),
        ensures
            res == self@.is_recent(username@, ip),
    {
        let user = username.to_owned();
        let idx = shard_index(username, ip, self.shard_mask);
        self.shards[idx].recent.contains(&user, ip)
    }

    /// Applies queued releases, and lists for each of `users` the addresses with
    /// an open session, in order.
    pub fn get_active_ips_for_users(&mut self, users: &[String]) -> (res: UserMap<Vec<IpAddr>>)
        requires
            old(self).wf(),
        ensures
            final(self).wf(),
            final(self).readings() == old(self).readings(),
            final(self)@ == old(self)@.drained(),
            res@.dom() == names_in(users@).to_set(),
            forall|user: Seq<char>| #[trigger]
                res@.contains_key(user) ==> strictly_sorted::<IpAddr>(res@[user]@)
                    && res@[user]@.to_set() == final(self)@.active_ips(user),
    {
        self.drain_cleanup_queue();
        let ghost names = names_in(users@);
        let mut out: UserMap<Vec<IpAddr>> = UserMap::new();
        let mut i: usize = 0;
        assert(out@.dom() =~= names.take(0).to_set());
        while i < users.len()
            invariant
                i <= users.len(),
                self.wf(),
                names == names_in(users@),
                out@.dom() == names.take(i as int).to_set(),
                forall|user: Seq<char>| #[trigger]
                    out@.contains_key(user) ==> strictly_sorted::<IpAddr>(out@[user]@)
                        && out@[user]@.to_set() == self@.active_ips(user),
            decreases users.len() - i,
        {
            let ips = in_order(&self.active_ips_of(&users[i]));
            out.insert(users[i].clone(), ips);
            proof {
                lemma_take_set(names, i as int);
                assert(out@.dom() =~= names.take(i + 1).to_set());
            }
            i += 1;
        }
        assert(names.take(i as int) =~= names);
        out
    }

    /// Applies queued releases, and lists for each of `users` the addresses seen
    /// within the window at the given time, in order.
    pub fn get_recent_ips_for_users_at(&mut self, users: &[String], clock: Clock) -> (res: UserMap<
        Vec<IpAddr>,
    >)
        requires
            old(self).wf(),
        ensures
            final(self).wf(),
            final(self).readings() == old(self).readings(),
            final(self)@ == old(self)@.drained(),
            final(self)@.recent_ips_report(names_in(users@), clock.instant_nanos, ips_in(res@)),
            forall|user: Seq<char>| #[trigger]
                res@.contains_key(user) ==> strictly_sorted::<IpAddr>(res@[user]@),
    {
        self.drain_cleanup_queue();
        let now = clock.instant_nanos;
        let ghost names = names_in(users@);
        let mut out: UserMap<Vec<IpAddr>> = UserMap::new();
        let mut i: usize = 0;
        assert(out@.dom() =~= names.take(0).to_set());
        while i < users.len()
            invariant
                i <= users.len(),
                self.wf(),
                names == names_in(users@),
                out@.dom() == names.take(i as int).to_set(),
                forall|user: Seq<char>| #[trigger]
                    out@.contains_key(user) ==> strictly_sorted::<IpAddr>(out@[user]@)
                        && out@[user]@.to_set() == self@.fresh_ips(user, now),
            decreases users.len() - i,
        {
            let ips = in_order(&self.fresh_ips_of(&users[i], now));
            out.insert(users[i].clone(), ips);
            proof {
                lemma_take_set(names, i as int);
                assert(out@.dom() =~= names.take(i + 1).to_set());
            }
            i += 1;
        }
        assert(names.take(i as int) =~= names);
        assert(ips_in(out@).dom() =~= names.to_set());
        out
    }

    /// Applies queued releases, and lists for each of `users` the addresses seen
    /// within the window, in order.
    pub fn get_recent_ips_for_users(&mut self, users: &[String]) -> (res: UserMap<Vec<IpAddr>>)
        requires
            old(self).wf(),
        ensures
            final(self).wf(),
            one_more_reading(old(self).readings(), final(self).readings()),
            final(self)@ == old(self)@.drained(),
            final(self)@.recent_ips_report(
                names_in(users@),
                final(self).readings().last().instant_nanos,
                ips_in(res@),
            ),
            forall|user: Seq<char>| #[trigger]
                res@.contains_key(user) ==> strictly_sorted::<IpAddr>(res@[user]@),
    {
        let clock = self.clock.read();
        self.get_recent_ips_for_users_at(users, clock)
    }

    /// How many addresses of `username` were seen within the window.
    fn count_fresh(&self, username: &String, now: u64) -> (res: usize)
        requires
            self.wf(),
        ensures
            res == self@.user_fresh_total(username@, now),
    {
        let ghost user = username@;
        let window = self.limit_window_secs;
        proof {
            self.lemma_sound();
            lemma_fresh_total_bounded(self@, user, now);
        }
        let mut total: usize = 0;
        let mut i: usize = 0;
        while i < self.shards.len()
            invariant
                i <= self.shards.len(),
                self.wf(),
                user == username@,
                window == self@.window_secs,
                self@.user_fresh_total(user, now) <= MAX_RECENT_IP_ENTRIES,
                total == sum_over(
                    self@.shards.take(i as int),
                    user_fresh_size(user, now, window),
                ),
            decreases self.shards.len() - i,
        {
            proof {
                lemma_sum_take(self@.shards, i as int, user_fresh_size(user, now, window));
                lemma_sum_prefix(self@.shards, i + 1, user_fresh_size(user, now, window));
            }
            total =
            total.saturating_add(self.shards[i].recent.fresh_ips_of(username, now, window).len());
            i += 1;
        }
        assert(self@.shards.take(i as int) =~= self@.shards);
        total
    }

    /// Counts for each of `users` the addresses seen within the window at the
    /// given time. A name that is listed several times counts as often.
    pub fn get_recent_counts_for_users_snapshot_at(&self, users: &[String], clock: Clock) -> (res:
        UserMap<usize>)
        requires
            self.wf(),
        ensures
            self@.recent_counts_report(names_in(users@), clock.instant_nanos, res@),
    {
        let now = clock.instant_nanos;
        let ghost names = names_in(users@);
        let mut out: UserMap<usize> = UserMap::new();
        let mut i: usize = 0;
        assert(out@.dom() =~= names.take(0).to_set());
        while i < users.len()
            invariant
                i <= users.len(),
                self.wf(),
                names == names_in(users@),
                self@.recent_counts_report(names.take(i as int), now, out@),
            decreases users.len() - i,
        {
            let n = self.count_fresh(&users[i], now);
            let ghost counted = out@;
            let so_far: usize = match out.get(&users[i]) {
                Some(count) => *count,
                None => 0,
            };
            out.insert(users[i].clone(), so_far.saturating_add(n));
            proof {
                lemma_take_set(names, i as int);
                lemma_occurrences_positive(names.take(i as int), names[i as int]);
                assert(counted.contains_key(names[i as int]) == names.take(i as int).contains(
                    names[i as int],
                ));
                assert(0 * n == 0) by (nonlinear_arith);
                lemma_counts_step(self@, names, i as int, now, so_far, n);
                assert(out@.dom() =~= names.take(i + 1).to_set());
            }
            i += 1;
        }
        assert(names.take(i as int) =~= names);
        out
    }

    /// Counts for each of `users` the addresses seen within the window.
    pub fn get_recent_counts_for_users_snapshot(&mut self, users: &[String]) -> (res: UserMap<
        usize,
    >)
        requires
            old(self).wf(),
        ensures
            final(self).wf(),
            one_more_reading(old(self).readings(), final(self).readings()),
            final(self)@ == old(self)@,
            final(self)@.recent_counts_report(
                names_in(users@),
                final(self).readings().last().instant_nanos,
                res@,
            ),
    {
        let clock = self.clock.read();
        self.get_recent_counts_for_users_snapshot_at(users, clock)
    }

    /// Applies queued releases, and counts for each of `users` the addresses
    /// seen within the window at the given time.
    pub fn get_recent_counts_for_users_at(&mut self, users: &[String], clock: Clock) -> (res:
        UserMap<usize>)
        requires
            old(self).wf(),
        ensures
            final(self).wf(),
            final(self).readings() == old(self).readings(),
            final(self)@ == old(self)@.drained(),
            final(self)@.recent_counts_report(names_in(users@), clock.instant_nanos, res@),
    {
        self.drain_cleanup_queue();
        self.get_recent_counts_for_users_snapshot_at(users, clock)
    }

    /// Applies queued releases, and counts for each of `users` the addresses
    /// seen within the window.
    pub fn get_recent_counts_for_users(&mut self, users: &[String]) -> (res: UserMap<usize>)
        requires
            old(self).wf(),
        ensures
            final(self).wf(),
            one_more_reading(old(self).readings(), final(self).readings()),
            final(self)@ == old(self)@.drained(),
            final(self)@.recent_counts_report(
                names_in(users@),
                final(self).readings().last().instant_nanos,
                res@,
            ),
    {
        let clock = self.clock.read();
        self.get_recent_counts_for_users_at(users, clock)
    }

    /// Counts what the tracker holds.
    pub fn memory_stats(&self) -> (res: UserIpTrackerMemoryStats)
        requires
            self.wf(),
        ensures
            res.active_users == self@.active_users().len(),
            res.recent_users == self@.recent_users().len(),
            self@.active_users().finite(),
            self@.recent_users().finite(),
            res.active_entries == self@.active_total(),
            res.recent_entries == self@.recent_total(),
            res.cleanup_queue_len == self@.queue.len(),
            res.active_cap_rejects == self@.active_cap_rejects,
            res.recent_cap_rejects == self@.recent_cap_rejects,
            res.cleanup_deferred_releases == self@.deferred_releases,
    {
        let mut active_users: UserMap<()> = UserMap::new();
        let mut recent_users: UserMap<()> = UserMap::new();
        let mut active_entries: usize = 0;
        let mut recent_entries: usize = 0;
        let mut i: usize = 0;
        assert(active_users@.dom() =~= owners_within(self@.shards, 0, false));
        assert(recent_users@.dom() =~= owners_within(self@.shards, 0, true));
        while i < self.shards.len()
            invariant
                i <= self.shards.len(),
                self.wf(),
                active_users@.dom() == owners_within(self@.shards, i as int, false),
                recent_users@.dom() == owners_within(self@.shards, i as int, true),
                active_entries == sum_over(self@.shards.take(i as int), active_size()),
                recent_entries == sum_over(self@.shards.take(i as int), recent_size()),
            decreases self.shards.len() - i,
        {
            proof {
                self.shards[i as int].lemma_sound();
                lemma_sum_take(self@.shards, i as int, active_size());
                lemma_sum_take(self@.shards, i as int, recent_size());
                lemma_sum_prefix(self@.shards, i + 1, active_size());
                lemma_sum_prefix(self@.shards, i + 1, recent_size());
            }
            add_owners(&self.shards[i].active, &mut active_users);
            add_owners(&self.shards[i].recent, &mut recent_users);
            active_entries = active_entries + self.shards[i].active.len();
            recent_entries = recent_entries + self.shards[i].recent.len();
            proof {
                assert(active_users@.dom() =~= owners_within(self@.shards, i + 1, false));
                assert(recent_users@.dom() =~= owners_within(self@.shards, i + 1, true));
            }
            i += 1;
        }
        assert(self@.shards.take(i as int) =~= self@.shards);
        assert(active_users@.dom() =~= self@.active_users());
        assert(recent_users@.dom() =~= self@.recent_users());
        UserIpTrackerMemoryStats {
            active_users: active_users.len(),
            recent_users: recent_users.len(),
            active_entries,
            recent_entries,
            cleanup_queue_len: self.cleanup_queue.len(),
            active_cap_rejects: self.active_cap_rejects,
            recent_cap_rejects: self.recent_cap_rejects,
            cleanup_deferred_releases: self.cleanup_deferred_releases,
        }
    }

    /// The users that some shard lists among its active ones.
    fn collect_listed_users(&self) -> (res: UserMap<()>)
        requires
            self.wf(),
        ensures
            res@.dom() == self@.listed_users(),
    {
        let mut out: UserMap<()> = UserMap::new();
        let mut i: usize = 0;
        while i < self.shards.len()
            invariant
                i <= self.shards.len(),
                self.wf(),
                forall|user: Seq<char>| #[trigger]
                    out@.contains_key(user) <==> exists|j: int|
                        0 <= j < i && (#[trigger] self@.shards[j]).active.users.contains(user),
            decreases self.shards.len() - i,
        {
            let users = self.shards[i].active.known_users();
            let ghost before = out@.dom();
            add_names(&users, &mut out);
            proof {
                assert forall|user: Seq<char>| #[trigger]
                    out@.contains_key(user) <==> exists|j: int|
                        0 <= j < i + 1 && (
                        #[trigger] self@.shards[j]).active.users.contains(user) by {
                    assert(out@.dom().contains(user) == (before.contains(user)
                        || self@.shards[i as int].active.users.contains(user)));
                }
            }
            i += 1;
        }
        assert(out@.dom() =~= self@.listed_users());
        out
    }

    /// Lists for each listed user how many of its addresses have an open
    /// session, and its limit or zero, in the order of names.
    pub fn get_stats_snapshot(&self) -> (res: Vec<(String, usize, usize)>)
        requires
            self.wf(),
        ensures
            self@.stats_report(row_views(res@)),
    {
        let users = self.collect_listed_users();
        let n = users.len();
        let ghost names = users.names();
        let mut stats: Vec<(String, usize, usize)> = Vec::new();
        let mut i: usize = 0;
        while i < n
            invariant
                i <= n,
                n == names.len(),
                names == users.names(),
                self.wf(),
                stats.len() == i,
                forall|j: int|
                    0 <= j < i ==> row_views(stats@)[j] == self@.stats_row(#[trigger] names[j]),
            decreases n - i,
        {
            let username = users.name_at(i);
            let active_count = self.count_active(username);
            let limit: usize = match self.limit_for(username) {
                Some(limit) => limit,
                None => 0,
            };
            let ghost prior = row_views(stats@);
            stats.push((username.clone(), active_count, limit));
            assert(row_views(stats@) =~= prior.push(
                self@.stats_row(names[i as int]),
            ));
            i += 1;
        }
        proof {
            let rows = row_views(stats@);
            assert forall|j: int| 0 <= j < rows.len() implies #[trigger] rows[j] == self@.stats_row(
                names[j],
            ) by {
                assert(names[j] == names[j]);
            }
            assert(row_names(rows) =~= names);
        }
        stats
    }

    /// Applies queued releases, and lists the statistics of all listed users.
    pub fn get_stats(&mut self) -> (res: Vec<(String, usize, usize)>)
        requires
            old(self).wf(),
        ensures
            final(self).wf(),
            final(self).readings() == old(self).readings(),
            final(self)@ == old(self)@.drained(),
            final(self)@.stats_report(row_views(res@)),
    {
        self.drain_cleanup_queue();
        self.get_stats_snapshot()
    }
}

/// The users that own an active or recent entry in one of the first `n` shards.
spec fn owners_within(shards: Seq<SlotView>, n: int, recent: bool) -> Set<Seq<char>> {
    Set::new(
        |user: Seq<char>|
            exists|i: int|
                0 <= i < n && if recent {
                    (#[trigger] shards[i]).recent.owns_any(user)
                } else {
                    shards[i].active.owns_any(user)
                },
    )
}

/// Adds the users that own an entry of the table.
fn add_owners<V>(table: &IpTable<V>, users: &mut UserMap<()>)
    requires
        table.wf(),
    ensures
        forall|user: Seq<char>| #[trigger]
            final(users)@.contains_key(user) <==> old(users)@.contains_key(user)
                || table@.owns_any(user),
{
    let known = table.known_users();
    let ghost names = names_in(known@);
    let ghost before = users@;
    let mut i: usize = 0;
    while i < known.len()
        invariant
            i <= known.len(),
            table.wf(),
            names == names_in(known@),
            forall|user: Seq<char>| #[trigger]
                users@.contains_key(user) <==> before.contains_key(user) || (table@.owns_any(user)
                    && names.take(i as int).contains(user)),
        decreases known.len() - i,
    {
        proof {
            lemma_take_set(names, i as int);
            assert forall|user: Seq<char>| #[trigger] names.take(i + 1).contains(user) == (
            names.take(i as int).contains(user) || user == names[i as int]) by {
                assert(names.take(i + 1).to_set().contains(user) == names.take(
                    i as int,
                ).to_set().insert(names[i as int]).contains(user));
            }
        }
        if table.owns_any(&known[i]) {
            users.insert(known[i].clone(), ());
        }
        i += 1;
    }
    proof {
        table.lemma_sound();
        assert(names.take(i as int) =~= names);
        assert forall|user: Seq<char>| table@.owns_any(user) implies names.contains(user) by {
            let ip = choose|ip: IpAddr| table@.entries.contains_key((user, ip));
            assert(table@.entries.contains_key((user, ip)));
            assert(names.to_set().contains(user));
        }
    }
}

/// Adds the given users.
fn add_names(names: &Vec<String>, users: &mut UserMap<()>)
    ensures
        final(users)@.dom() == old(users)@.dom() + names_in(names@).to_set(),
{
    let ghost all = names_in(names@);
    let ghost before = users@.dom();
    let mut i: usize = 0;
    assert(users@.dom() =~= before + all.take(0).to_set());
    while i < names.len()
        invariant
            i <= names.len(),
            all == names_in(names@),
            users@.dom() == before + all.take(i as int).to_set(),
        decreases names.len() - i,
    {
        users.insert(names[i].clone(), ());
        proof {
            lemma_take_set(all, i as int);
            assert(users@.dom() =~= before + all.take(i + 1).to_set());
        }
        i += 1;
    }
    assert(all.take(i as int) =~= all);
}

/// Appends addresses that are not there yet.
fn append_distinct(out: &mut Vec<IpAddr>, more: Vec<IpAddr>)
    requires
        old(out)@.no_duplicates(),
        more@.no_duplicates(),
        old(out)@.to_set().disjoint(more@.to_set()),
    ensures
        final(out)@.no_duplicates(),
        final(out)@.to_set() == old(out)@.to_set() + more@.to_set(),
{
    let ghost before = out@;
    let mut more = more;
    let ghost added = more@;
    out.append(&mut more);
    proof {
        assert(out@ =~= before + added);
        assert forall|i: int, j: int|
            0 <= i < out@.len() && 0 <= j < out@.len() && i != j implies out@[i] != out@[j] by {
            if i < before.len() && j >= before.len() {
                assert(before.to_set().contains(before[i]));
                assert(added.to_set().contains(added[j - before.len()]));
            }
            if j < before.len() && i >= before.len() {
                assert(before.to_set().contains(before[j]));
                assert(added.to_set().contains(added[i - before.len()]));
            }
        }
        vstd::seq_lib::seq_to_set_distributes_over_add(before, added);
    }
}

/// The given addresses in order, each once.
fn in_order(ips: &Vec<IpAddr>) -> (res: Vec<IpAddr>)
    ensures
        strictly_sorted::<IpAddr>(res@),
        res@.to_set() == ips@.to_set(),
{
    let mut sorted: SortedMap<IpAddr, ()> = SortedMap::new();
    let mut i: usize = 0;
    assert(sorted@.dom() =~= ips@.take(0).to_set());
    while i < ips.len()
        invariant
            i <= ips.len(),
            sorted.wf(),
            sorted@.dom() == ips@.take(i as int).to_set(),
        decreases ips.len() - i,
    {
        let _ = sorted.insert(ips[i], ());
        proof {
            lemma_take_set(ips@, i as int);
            assert(sorted@.dom() =~= ips@.take(i + 1).to_set());
        }
        i += 1;
    }
    assert(ips@.take(i as int) =~= ips@);
    proof {
        sorted.lemma_ids();
    }
    let mut out: Vec<IpAddr> = Vec::new();
    let mut k: usize = 0;
    while k < sorted.len()
        invariant
            k <= sorted.ids().len(),
            out@ == sorted.ids().take(k as int),
        decreases sorted.ids().len() - k,
    {
        out.push(*sorted.key_at(k));
        assert(out@ =~= sorted.ids().take(k + 1));
        k += 1;
    }
    assert(sorted.ids().take(k as int) =~= sorted.ids());
    out
}

} // verus!

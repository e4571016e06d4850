//! What holds of every tracker.

use vstd::prelude::*;

use crate::cleanup_queue::{is_queued, queue_sound, queue_with, queued_at, PendingRelease};
use crate::clock::Clock;
use crate::ip::IpAddr;
use crate::ip_shard::{home_shard, lemma_home_shard_in_range, SlotView};
use crate::ip_table::IpTableView;
use crate::tracker_model::{
    active_size, one_more, recent_size, release_all, slot_orderly, sum_over, user_active_size,
    user_fresh_size, user_recent_size, TrackerView, UserMaxUniqueIpsMode,
    CLEANUP_DRAIN_BATCH_LIMIT, MAX_ACTIVE_IP_ENTRIES, MAX_RECENT_IP_ENTRIES,
};
use crate::tracker_sums::{
    lemma_admitted_keeps, lemma_compacted_keeps, lemma_pruned_keeps, lemma_released_keeps,
    lemma_sum_le, lemma_sum_take, lemma_sum_update, lemma_sum_zero, lemma_touched_keeps, lemma_user_ips_bounded,
    lemma_user_totals_bounded, lemma_without_user_keeps,
};

verus! {

/// Every pair has a shard.
pub proof fn lemma_home_in_range(state: TrackerView, user: Seq<char>, ip: IpAddr)
    requires
        state.sound(),
    ensures
        0 <= state.home(user, ip) < state.shards.len(),
{
    lemma_home_shard_in_range(user, ip, state.mask());
}

/// A state with the same settings whose shards are sound, hold their own pairs
/// and hold no more than before is sound.
proof fn lemma_smaller_is_sound(before: TrackerView, after: TrackerView)
    requires
        before.sound(),
        after.shards.len() == before.shards.len(),
        after.window_secs >= 1,
        queue_sound(after.queue),
        forall|i: int|
            0 <= i < after.shards.len() ==> {
                &&& (#[trigger] after.shards[i]).sound()
                &&& slot_orderly(after.shards[i], i, before.mask())
                &&& after.shards[i].active.entries.len() <= before.shards[i].active.entries.len()
                &&& after.shards[i].recent.entries.len() <= before.shards[i].recent.entries.len()
            },
    ensures
        after.sound(),
        after.active_total() <= before.active_total(),
        after.recent_total() <= before.recent_total(),
{
    assert forall|i: int| 0 <= i < after.shards.len() implies active_size()(
        #[trigger] after.shards[i],
    ) <= active_size()(before.shards[i]) by {
    }
    lemma_sum_le(after.shards, before.shards, active_size(), active_size());
    assert forall|i: int| 0 <= i < after.shards.len() implies recent_size()(
        #[trigger] after.shards[i],
    ) <= recent_size()(before.shards[i]) by {
    }
    lemma_sum_le(after.shards, before.shards, recent_size(), recent_size());
}

/// Applied releases keep the number of shards and each shard in order.
pub(crate) proof fn lemma_release_all_keeps(state: TrackerView, batch: Seq<PendingRelease>)
    requires
        state.sound(),
    ensures
        release_all(state.shards, batch).len() == state.shards.len(),
        forall|i: int|
            0 <= i < state.shards.len() ==> {
                let slot = #[trigger] release_all(state.shards, batch)[i];
                &&& slot.sound()
                &&& slot_orderly(slot, i, state.mask())
                &&& slot.active.entries.len() <= state.shards[i].active.entries.len()
                &&& slot.recent == state.shards[i].recent
            },
    decreases batch.len(),
{
    if batch.len() > 0 {
        lemma_release_all_keeps(state, batch.drop_last());
        let prior = release_all(state.shards, batch.drop_last());
        let release = batch.last();
        lemma_home_in_range(state, release.user, release.ip);
        let h = state.home(release.user, release.ip);
        lemma_released_keeps(
            prior[h],
            release.user,
            release.ip,
            release.count,
            h,
            state.mask(),
        );
    } else {
        assert forall|i: int| 0 <= i < state.shards.len() implies (
        #[trigger] state.shards[i]).sound() && slot_orderly(state.shards[i], i, state.mask()) by {
        }
    }
}

/// A drain keeps a sound state sound.
pub proof fn lemma_drained_sound(state: TrackerView)
    requires
        state.sound(),
    ensures
        state.drained().sound(),
        state.drained().active_total() <= state.active_total(),
        state.drained().recent_total() <= state.recent_total(),
{
    let n = state.batch_len();
    lemma_release_all_keeps(state, state.queue.take(n));
    let after = state.drained();
    assert forall|i: int, j: int| 0 <= i < j < after.queue.len() implies (
    #[trigger] after.queue[i]).user != (#[trigger] after.queue[j]).user || after.queue[i].ip
        != after.queue[j].ip by {
        assert(after.queue[i] == state.queue[i + n]);
        assert(after.queue[j] == state.queue[j + n]);
    }
    lemma_smaller_is_sound(state, after);
}

/// A drain leaves the recent entries of every shard alone.
pub proof fn lemma_drained_recents(state: TrackerView)
    requires
        state.sound(),
    ensures
        state.drained().shards.len() == state.shards.len(),
        forall|i: int|
            0 <= i < state.shards.len() ==> (#[trigger] state.drained().shards[i]).recent
                == state.shards[i].recent,
{
    lemma_release_all_keeps(state, state.queue.take(state.batch_len()));
}

/// A compaction keeps a sound state sound.
pub proof fn lemma_compacted_sound(state: TrackerView, clock: Clock)
    requires
        state.sound(),
    ensures
        state.compacted(clock).sound(),
        state.compacted(clock).active_total() <= state.active_total(),
        state.compacted(clock).recent_total() <= state.recent_total(),
{
    if state.compaction_due(clock.epoch_secs) {
        let after = state.compacted(clock);
        assert forall|i: int| 0 <= i < after.shards.len() implies {
            &&& (#[trigger] after.shards[i]).sound()
            &&& slot_orderly(after.shards[i], i, state.mask())
            &&& after.shards[i].active.entries.len() <= state.shards[i].active.entries.len()
            &&& after.shards[i].recent.entries.len() <= state.shards[i].recent.entries.len()
        } by {
            let slot = state.shards[i];
            assert(slot.sound() && slot_orderly(slot, i, state.mask()));
            lemma_compacted_keeps(slot, clock.instant_nanos, state.window_secs, i, state.mask());
        }
        lemma_smaller_is_sound(state, after);
    }
}

/// Making a user known keeps a sound state sound.
pub proof fn lemma_touched_sound(state: TrackerView, user: Seq<char>, ip: IpAddr, now: u64)
    requires
        state.sound(),
    ensures
        state.touched(user, ip, now).sound(),
        state.touched(user, ip, now).active_total() <= state.active_total(),
        state.touched(user, ip, now).recent_total() <= state.recent_total(),
{
    lemma_home_in_range(state, user, ip);
    let h = state.home(user, ip);
    let after = state.touched(user, ip, now);
    lemma_touched_keeps(state.shards[h], user, now, state.window_secs, h, state.mask());
    assert forall|i: int| 0 <= i < after.shards.len() implies {
        &&& (#[trigger] after.shards[i]).sound()
        &&& slot_orderly(after.shards[i], i, state.mask())
        &&& after.shards[i].active.entries.len() <= state.shards[i].active.entries.len()
        &&& after.shards[i].recent.entries.len() <= state.shards[i].recent.entries.len()
    } by {
        assert(state.shards[i].sound() && slot_orderly(state.shards[i], i, state.mask()));
    }
    lemma_smaller_is_sound(state, after);
}

/// Enforcing the window keeps a sound state sound, and every session.
pub proof fn lemma_pruned_sound(state: TrackerView, user: Seq<char>, now: u64)
    requires
        state.sound(),
    ensures
        state.pruned(user, now).sound(),
        state.pruned(user, now).active_total() == state.active_total(),
        state.pruned(user, now).recent_total() <= state.recent_total(),
{
    let after = state.pruned(user, now);
    assert forall|i: int| 0 <= i < after.shards.len() implies {
        &&& (#[trigger] after.shards[i]).sound()
        &&& slot_orderly(after.shards[i], i, state.mask())
        &&& after.shards[i].active.entries.len() <= state.shards[i].active.entries.len()
        &&& after.shards[i].recent.entries.len() <= state.shards[i].recent.entries.len()
    } by {
        assert(state.shards[i].sound() && slot_orderly(state.shards[i], i, state.mask()));
        lemma_pruned_keeps(state.shards[i], user, now, state.window_secs, i, state.mask());
    }
    lemma_smaller_is_sound(state, after);
    assert forall|i: int| 0 <= i < state.shards.len() implies active_size()(
        #[trigger] state.shards[i],
    ) <= active_size()(after.shards[i]) by {
    }
    lemma_sum_le(state.shards, after.shards, active_size(), active_size());
}

/// The end of a session keeps a sound state sound.
pub proof fn lemma_departure_sound(
    state: TrackerView,
    user: Seq<char>,
    ip: IpAddr,
    clock: Clock,
)
    requires
        state.sound(),
    ensures
        state.departure(user, ip, clock).sound(),
{
    let ready = state.compacted(clock);
    lemma_compacted_sound(state, clock);
    lemma_home_in_range(ready, user, ip);
    let h = ready.home(user, ip);
    let after = state.departure(user, ip, clock);
    lemma_released_keeps(ready.shards[h], user, ip, 1, h, ready.mask());
    assert forall|i: int| 0 <= i < after.shards.len() implies {
        &&& (#[trigger] after.shards[i]).sound()
        &&& slot_orderly(after.shards[i], i, ready.mask())
        &&& after.shards[i].active.entries.len() <= ready.shards[i].active.entries.len()
        &&& after.shards[i].recent.entries.len() <= ready.shards[i].recent.entries.len()
    } by {
        assert(ready.shards[i].sound() && slot_orderly(ready.shards[i], i, ready.mask()));
    }
    lemma_smaller_is_sound(ready, after);
}

/// Removing a user keeps a sound state sound.
pub proof fn lemma_without_user_sound(state: TrackerView, user: Seq<char>)
    requires
        state.sound(),
    ensures
        state.without_user(user).sound(),
{
    let after = state.without_user(user);
    assert forall|i: int| 0 <= i < after.shards.len() implies {
        &&& (#[trigger] after.shards[i]).sound()
        &&& slot_orderly(after.shards[i], i, state.mask())
        &&& after.shards[i].active.entries.len() <= state.shards[i].active.entries.len()
        &&& after.shards[i].recent.entries.len() <= state.shards[i].recent.entries.len()
    } by {
        assert(state.shards[i].sound() && slot_orderly(state.shards[i], i, state.mask()));
        lemma_without_user_keeps(state.shards[i], user, i, state.mask());
    }
    lemma_smaller_is_sound(state, after);
}

/// Recording sessions of a pair where there is room keeps a sound state sound.
pub proof fn lemma_admitted_sound(
    state: TrackerView,
    user: Seq<char>,
    ip: IpAddr,
    sessions: usize,
    now: u64,
)
    requires
        state.sound(),
        sessions >= 1,
        state.is_active(user, ip) || !state.active_full(),
        state.is_recent(user, ip) || !state.recent_full(),
    ensures
        state.admitted(user, ip, sessions, now).sound(),
{
    lemma_home_in_range(state, user, ip);
    let h = state.home(user, ip);
    let slot = state.shards[h];
    let grown = slot.admitted(user, ip, sessions, now);
    let after = state.admitted(user, ip, sessions, now);
    lemma_admitted_keeps(slot, user, ip, sessions, now, state.mask());
    lemma_sum_update(state.shards, h, grown, active_size());
    lemma_sum_update(state.shards, h, grown, recent_size());
    assert forall|i: int| 0 <= i < after.shards.len() implies (#[trigger] after.shards[i]).sound()
        && slot_orderly(after.shards[i], i, after.mask()) by {
        assert(state.shards[i].sound() && slot_orderly(state.shards[i], i, state.mask()));
    }
}

/// The state in which an admission is decided is sound.
pub proof fn lemma_prepared_sound(state: TrackerView, user: Seq<char>, ip: IpAddr, clock: Clock)
    requires
        state.sound(),
    ensures
        state.prepared(user, ip, clock).sound(),
{
    lemma_drained_sound(state);
    lemma_compacted_sound(state.drained(), clock);
    lemma_touched_sound(state.drained().compacted(clock), user, ip, clock.instant_nanos);
}

/// An attempt to open a session keeps a sound state sound, whether it succeeds
/// or not: the caps are respected, and every pair is in its own shard.
pub proof fn lemma_admission_sound(state: TrackerView, user: Seq<char>, ip: IpAddr, clock: Clock)
    requires
        state.sound(),
    ensures
        state.admission(user, ip, clock).0.sound(),
{
    let now = clock.instant_nanos;
    let ready = state.prepared(user, ip, clock);
    lemma_prepared_sound(state, user, ip, clock);
    if ready.is_active(user, ip) {
        if ready.is_recent(user, ip) || !ready.recent_full() {
            lemma_admitted_sound(
                ready,
                user,
                ip,
                one_more(ready.sessions(user, ip) as usize),
                now,
            );
        }
    } else {
        let settled = ready.pruned(user, now);
        lemma_pruned_sound(ready, user, now);
        if settled.decision(user, ip) is None {
            lemma_admitted_sound(settled, user, ip, 1, now);
        }
    }
}

/// How many ended sessions of a pair a batch of releases holds.
pub open spec fn ended_sessions(batch: Seq<PendingRelease>, user: Seq<char>, ip: IpAddr) -> nat
    decreases batch.len(),
{
    if batch.len() == 0 {
        0
    } else {
        let release = batch.last();
        ended_sessions(batch.drop_last(), user, ip) + if release.user == user && release.ip == ip {
            release.count as nat
        } else {
            0nat
        }
    }
}

/// `n` minus `m`, or zero.
pub open spec fn less(n: nat, m: nat) -> nat {
    if n >= m {
        (n - m) as nat
    } else {
        0
    }
}

/// The sessions of a pair in a list of shards.
spec fn sessions_in(shards: Seq<SlotView>, user: Seq<char>, ip: IpAddr) -> nat {
    let h = home_shard(user, ip, (shards.len() - 1) as usize) as int;
    if shards[h].active.entries.contains_key((user, ip)) {
        shards[h].active.entries[(user, ip)] as nat
    } else {
        0
    }
}

/// A pair is active exactly when it has a session.
pub proof fn lemma_active_pairs_have_sessions(state: TrackerView, user: Seq<char>, ip: IpAddr)
    requires
        state.sound(),
    ensures
        state.is_active(user, ip) <==> state.sessions(user, ip) >= 1,
{
    lemma_home_in_range(state, user, ip);
    let h = state.home(user, ip);
    assert(slot_orderly(state.shards[h], h, state.mask()));
}

proof fn lemma_release_all_sessions(
    state: TrackerView,
    batch: Seq<PendingRelease>,
    user: Seq<char>,
    ip: IpAddr,
)
    requires
        state.sound(),
    ensures
        sessions_in(release_all(state.shards, batch), user, ip) == less(
            state.sessions(user, ip),
            ended_sessions(batch, user, ip),
        ),
    decreases batch.len(),
{
    lemma_home_in_range(state, user, ip);
    if batch.len() > 0 {
        let prior = release_all(state.shards, batch.drop_last());
        let release = batch.last();
        lemma_release_all_sessions(state, batch.drop_last(), user, ip);
        lemma_release_all_keeps(state, batch.drop_last());
        lemma_home_in_range(state, release.user, release.ip);
        let h = state.home(release.user, release.ip);
        let slot = prior[h];
        let after = slot.released(release.user, release.ip, release.count);
        if (release.user, release.ip) != (user, ip) {
            assert(after.active.entries.contains_key((user, ip))
                == slot.active.entries.contains_key((user, ip)));
        }
    }
}

/// A drain ends exactly the sessions that were queued in its batch, of each
/// pair as many as it has.
pub proof fn lemma_drain_ends_queued_sessions(state: TrackerView, user: Seq<char>, ip: IpAddr)
    requires
        state.sound(),
    ensures
        state.drained().sessions(user, ip) == less(
            state.sessions(user, ip),
            ended_sessions(state.queue.take(state.batch_len()), user, ip),
        ),
{
    let batch = state.queue.take(state.batch_len());
    lemma_release_all_sessions(state, batch, user, ip);
    lemma_release_all_keeps(state, batch);
}

/// A drain of a queue that is no longer than a batch empties it.
pub proof fn lemma_short_queue_is_emptied(state: TrackerView)
    requires
        state.queue.len() <= CLEANUP_DRAIN_BATCH_LIMIT,
    ensures
        state.drained().queue.len() == 0,
{
}

/// Without queued releases a drain changes nothing.
pub proof fn lemma_empty_drain(state: TrackerView)
    requires
        state.queue.len() == 0,
    ensures
        state.drained() == state,
{
    assert(state.queue.take(0) =~= Seq::empty());
    assert(state.queue.skip(0) =~= state.queue);
}

/// A compaction ends no session.
pub proof fn lemma_compaction_keeps_sessions(
    state: TrackerView,
    clock: Clock,
    user: Seq<char>,
    ip: IpAddr,
)
    requires
        state.sound(),
    ensures
        state.compacted(clock).sessions(user, ip) == state.sessions(user, ip),
        state.compacted(clock).is_active(user, ip) == state.is_active(user, ip),
{
    lemma_home_in_range(state, user, ip);
}

/// Preparing an admission changes sessions only by draining.
pub proof fn lemma_prepared_keeps_sessions(
    state: TrackerView,
    user: Seq<char>,
    ip: IpAddr,
    clock: Clock,
    other: Seq<char>,
    other_ip: IpAddr,
)
    requires
        state.sound(),
    ensures
        state.prepared(user, ip, clock).sessions(other, other_ip) == state.drained().sessions(
            other,
            other_ip,
        ),
        state.prepared(user, ip, clock).is_active(other, other_ip) == state.drained().is_active(
            other,
            other_ip,
        ),
{
    lemma_drained_sound(state);
    let drained = state.drained();
    lemma_compaction_keeps_sessions(drained, clock, other, other_ip);
    let compacted = drained.compacted(clock);
    lemma_compacted_sound(drained, clock);
    lemma_home_in_range(compacted, user, ip);
    lemma_home_in_range(compacted, other, other_ip);
}

/// An attempt changes the sessions of its own pair only, and of that only when
/// it succeeds, by one more.
pub proof fn lemma_admission_sessions(
    state: TrackerView,
    user: Seq<char>,
    ip: IpAddr,
    clock: Clock,
    other: Seq<char>,
    other_ip: IpAddr,
)
    requires
        state.sound(),
    ensures
        ({
            let (after, refusal) = state.admission(user, ip, clock);
            let before = state.drained().sessions(other, other_ip);
            after.sessions(other, other_ip) == if refusal is None && (other, other_ip) == (
                user,
                ip,
            ) {
                if before >= usize::MAX {
                    usize::MAX as nat
                } else {
                    before + 1
                }
            } else {
                before
            }
        }),
{
    let now = clock.instant_nanos;
    let ready = state.prepared(user, ip, clock);
    lemma_prepared_sound(state, user, ip, clock);
    lemma_prepared_keeps_sessions(state, user, ip, clock, other, other_ip);
    lemma_home_in_range(ready, user, ip);
    lemma_home_in_range(ready, other, other_ip);
    if !ready.is_active(user, ip) {
        let settled = ready.pruned(user, now);
        assert(settled.shards[ready.home(other, other_ip)].active
            == ready.shards[ready.home(other, other_ip)].active);
        assert(settled.home(user, ip) == ready.home(user, ip));
    }
}

/// A session that was opened is counted, and its pair is recent.
pub proof fn lemma_success_opens_session(
    state: TrackerView,
    user: Seq<char>,
    ip: IpAddr,
    clock: Clock,
)
    requires
        state.sound(),
        state.admission(user, ip, clock).1 is None,
    ensures
        state.admission(user, ip, clock).0.is_active(user, ip),
        state.admission(user, ip, clock).0.is_recent(user, ip),
        state.admission(user, ip, clock).0.fresh_ips(user, clock.instant_nanos).contains(ip),
{
    let ready = state.prepared(user, ip, clock);
    lemma_prepared_sound(state, user, ip, clock);
    lemma_home_in_range(ready, user, ip);
}

/// A refusal is no admission: what is active stays as the drain left it.
pub proof fn lemma_refusal_changes_no_session(
    state: TrackerView,
    user: Seq<char>,
    ip: IpAddr,
    clock: Clock,
    other: Seq<char>,
    other_ip: IpAddr,
)
    requires
        state.sound(),
        state.admission(user, ip, clock).1 is Some,
    ensures
        state.admission(user, ip, clock).0.sessions(other, other_ip) == state.drained().sessions(
            other,
            other_ip,
        ),
{
    lemma_admission_sessions(state, user, ip, clock, other, other_ip);
}

/// A pair with an open session is never refused because of a limit; only the
/// cap on recent entries can keep it out.
pub proof fn lemma_reconnection_ignores_limits(
    state: TrackerView,
    user: Seq<char>,
    ip: IpAddr,
    clock: Clock,
)
    requires
        state.sound(),
        state.drained().is_active(user, ip),
    ensures
        state.admission(user, ip, clock).1 matches Some(refusal) ==> refusal is RecentCap,
        state.prepared(user, ip, clock).is_recent(user, ip) ==> state.admission(
            user,
            ip,
            clock,
        ).1 is None,
{
    lemma_prepared_keeps_sessions(state, user, ip, clock, user, ip);
}

/// Closing a session that was just opened leaves every pair with the sessions it
/// had before, unless the count of sessions could not be raised.
pub proof fn lemma_departure_undoes_admission(
    state: TrackerView,
    user: Seq<char>,
    ip: IpAddr,
    opened: Clock,
    closed: Clock,
    other: Seq<char>,
    other_ip: IpAddr,
)
    requires
        state.sound(),
        state.admission(user, ip, opened).1 is None,
        state.drained().sessions(user, ip) < usize::MAX,
    ensures
        state.admission(user, ip, opened).0.departure(user, ip, closed).sessions(other, other_ip)
            == state.drained().sessions(other, other_ip),
{
    let after = state.admission(user, ip, opened).0;
    lemma_admission_sound(state, user, ip, opened);
    lemma_admission_sessions(state, user, ip, opened, other, other_ip);
    lemma_admission_sessions(state, user, ip, opened, user, ip);
    lemma_departure_sessions(after, user, ip, closed, other, other_ip);
}

/// The end of a session takes one session from its own pair, if it has one, and
/// none from any other.
pub proof fn lemma_departure_sessions(
    state: TrackerView,
    user: Seq<char>,
    ip: IpAddr,
    clock: Clock,
    other: Seq<char>,
    other_ip: IpAddr,
)
    requires
        state.sound(),
    ensures
        state.departure(user, ip, clock).sessions(other, other_ip) == if (other, other_ip) == (
            user,
            ip,
        ) {
            less(state.sessions(user, ip), 1)
        } else {
            state.sessions(other, other_ip)
        },
{
    let ready = state.compacted(clock);
    lemma_compacted_sound(state, clock);
    lemma_compaction_keeps_sessions(state, clock, user, ip);
    lemma_compaction_keeps_sessions(state, clock, other, other_ip);
    lemma_home_in_range(ready, user, ip);
    lemma_home_in_range(ready, other, other_ip);
    let slot = ready.shards[ready.home(user, ip)];
    let after = slot.released(user, ip, 1);
    if (other, other_ip) != (user, ip) {
        assert(after.active.entries.contains_key((other, other_ip))
            == slot.active.entries.contains_key((other, other_ip)));
    }
}

/// Ending sessions one after another is ending them together.
pub proof fn lemma_releases_add_up(
    table: IpTableView<usize>,
    user: Seq<char>,
    ip: IpAddr,
    a: usize,
    b: usize,
)
    requires
        table.sound(),
        a >= 1,
        b >= 1,
        a + b <= usize::MAX,
    ensures
        table.released(user, ip, a).released(user, ip, b) == table.released(
            user,
            ip,
            (a + b) as usize,
        ),
{
    let first = table.released(user, ip, a);
    let both = first.released(user, ip, b);
    let once = table.released(user, ip, (a + b) as usize);
    let key = (user, ip);
    if !table.entries.contains_key(key) {
        assert(first.entries == table.entries);
        assert(first.owns_any(user) == table.owns_any(user));
        assert(both.users =~= once.users);
    } else if table.entries[key] > a {
        assert(first.entries.contains_key(key));
        if table.entries[key] > a + b {
            assert(both.entries =~= once.entries);
            assert(both.users =~= once.users);
        } else {
            let x = first.without_entry(user, ip);
            let y = table.without_entry(user, ip);
            assert(x.entries =~= y.entries);
            assert(x.owns_any(user) == y.owns_any(user));
            if y.owns_any(user) {
                assert(first.users =~= table.users);
            } else {
                assert(first.users.remove(user) =~= table.users.remove(user));
            }
        }
    } else {
        let y = table.without_entry(user, ip);
        assert(!first.entries.contains_key(key));
        assert(first.entries == y.entries);
        assert(first.owns_any(user) == y.owns_any(user));
        assert(both.users =~= once.users);
    }
}

/// A queued release, once drained, is the end of a session.
pub proof fn lemma_queued_release_is_departure(state: TrackerView, user: Seq<char>, ip: IpAddr)
    requires
        state.sound(),
        state.queue.len() == 0,
    ensures
        (TrackerView { queue: queue_with(state.queue, user, ip), ..state }).drained()
            == state.departed(user, ip),
{
    let queued = TrackerView { queue: queue_with(state.queue, user, ip), ..state };
    assert(!is_queued(state.queue, user, ip)) by {
        assert forall|i: int| !queued_at(state.queue, user, ip, i) by {
        }
    }
    let release = PendingRelease { user, ip, count: 1 };
    assert(queued.queue =~= seq![release]);
    assert(queued.queue.take(1) =~= seq![release]);
    assert(queued.queue.skip(1) =~= state.queue);
    assert(seq![release].drop_last() =~= Seq::<PendingRelease>::empty());
    assert(release_all(state.shards, Seq::<PendingRelease>::empty()) == state.shards);
    assert(release_all(state.shards, seq![release]) =~= state.departed(user, ip).shards);
}

/// Every user with an open session is listed.
pub proof fn lemma_active_users_are_listed(state: TrackerView)
    requires
        state.sound(),
    ensures
        state.active_users().subset_of(state.listed_users()),
{
    assert forall|user: Seq<char>| state.active_users().contains(user) implies
        state.listed_users().contains(user) by {
        let i = choose|i: int|
            0 <= i < state.shards.len() && (#[trigger] state.shards[i]).active.owns_any(user);
        let ip = choose|ip: IpAddr| state.shards[i].active.entries.contains_key((user, ip));
        assert(state.shards[i].sound());
        assert(state.shards[i].active.entries.contains_key((user, ip)));
        assert(state.shards[i].active.users.contains(user));
    }
}

/// A cleared user has no session and is not recent; nobody else is touched.
pub proof fn lemma_cleared_user_is_gone(
    state: TrackerView,
    user: Seq<char>,
    other: Seq<char>,
    ip: IpAddr,
)
    requires
        state.sound(),
    ensures
        !state.without_user(user).is_active(user, ip),
        !state.without_user(user).is_recent(user, ip),
        other != user ==> state.without_user(user).sessions(other, ip) == state.sessions(other, ip),
        other != user ==> state.without_user(user).is_recent(other, ip) == state.is_recent(
            other,
            ip,
        ),
{
    lemma_home_in_range(state, user, ip);
    lemma_home_in_range(state, other, ip);
}

/// A cleared tracker holds nothing.
pub proof fn lemma_cleared_is_empty(state: TrackerView, user: Seq<char>, ip: IpAddr)
    requires
        state.sound(),
    ensures
        state.cleared().sound(),
        state.cleared().active_total() == 0,
        state.cleared().recent_total() == 0,
        !state.cleared().is_active(user, ip),
        !state.cleared().is_recent(user, ip),
{
    lemma_home_in_range(state, user, ip);
    let after = state.cleared();
    assert forall|i: int| 0 <= i < after.shards.len() implies #[trigger] after.shards[i]
        == SlotView::empty() by {
    }
    lemma_sum_zero(after.shards, active_size());
    lemma_sum_zero(after.shards, recent_size());
}

/// The limit of a user is its own where that is positive, and the default where
/// it is not; there is none where neither is positive.
pub proof fn lemma_limit_resolution(state: TrackerView, user: Seq<char>)
    ensures
        state.limits.contains_key(user) && state.limits[user] > 0 ==> state.limit_of(user) == Some(
            state.limits[user],
        ),
        !(state.limits.contains_key(user) && state.limits[user] > 0) && state.default_limit > 0
            ==> state.limit_of(user) == Some(state.default_limit),
        state.limit_of(user) is None <==> state.default_limit == 0 && (state.limits.contains_key(
            user,
        ) ==> state.limits[user] == 0),
        state.limit_of(user) matches Some(limit) ==> limit > 0,
{
}

/// The addresses of a user with an open session in the first `k` shards.
spec fn active_before(state: TrackerView, user: Seq<char>, k: int) -> Set<IpAddr> {
    state.active_ips(user).filter(|ip: IpAddr| state.home(user, ip) < k)
}

proof fn lemma_active_before(state: TrackerView, user: Seq<char>, k: int)
    requires
        state.sound(),
        0 <= k <= state.shards.len(),
    ensures
        active_before(state, user, k).finite(),
        active_before(state, user, k).len() == sum_over(
            state.shards.take(k),
            user_active_size(user),
        ),
    decreases k,
{
    if k == 0 {
        assert forall|ip: IpAddr| state.home(user, ip) >= 0 by {
        }
        assert(active_before(state, user, 0) =~= Set::empty());
    } else {
        let slot = state.shards[k - 1];
        let here = slot.active.user_ips(user);
        let before = active_before(state, user, k - 1);
        lemma_active_before(state, user, k - 1);
        lemma_sum_take(state.shards, k - 1, user_active_size(user));
        assert(slot.sound());
        assert(slot_orderly(slot, k - 1, state.mask()));
        lemma_user_ips_bounded(slot.active, user);
        assert forall|ip: IpAddr| here.contains(ip) implies state.home(user, ip) == k - 1 by {
            assert(slot.active.entries.contains_key((user, ip)));
        }
        assert(active_before(state, user, k) =~= before + here);
        assert(before.disjoint(here));
        vstd::set_lib::lemma_set_disjoint_lens(before, here);
    }
}

/// The number of addresses with an open session that is reported of a user is
/// the number of different addresses that are listed of it.
pub proof fn lemma_active_total_counts_addresses(state: TrackerView, user: Seq<char>)
    requires
        state.sound(),
    ensures
        state.active_ips(user).finite(),
        state.user_active_total(user) == state.active_ips(user).len(),
{
    let n = state.shards.len() as int;
    lemma_active_before(state, user, n);
    assert forall|ip: IpAddr| state.home(user, ip) < n by {
        lemma_home_in_range(state, user, ip);
    }
    assert(active_before(state, user, n) =~= state.active_ips(user));
    assert(state.shards.take(n) =~= state.shards);
}

/// The addresses of a user within the window in the first `k` shards.
spec fn fresh_before(state: TrackerView, user: Seq<char>, now: u64, k: int) -> Set<IpAddr> {
    state.fresh_ips(user, now).filter(|ip: IpAddr| state.home(user, ip) < k)
}

proof fn lemma_fresh_before(state: TrackerView, user: Seq<char>, now: u64, k: int)
    requires
        state.sound(),
        0 <= k <= state.shards.len(),
    ensures
        fresh_before(state, user, now, k).finite(),
        fresh_before(state, user, now, k).len() == sum_over(
            state.shards.take(k),
            user_fresh_size(user, now, state.window_secs),
        ),
    decreases k,
{
    if k == 0 {
        assert forall|ip: IpAddr| state.home(user, ip) >= 0 by {
        }
        assert(fresh_before(state, user, now, 0) =~= Set::empty());
    } else {
        let slot = state.shards[k - 1];
        let here = slot.recent.fresh_ips(user, now, state.window_secs);
        let before = fresh_before(state, user, now, k - 1);
        lemma_fresh_before(state, user, now, k - 1);
        lemma_sum_take(state.shards, k - 1, user_fresh_size(user, now, state.window_secs));
        assert(slot.sound());
        assert(slot_orderly(slot, k - 1, state.mask()));
        lemma_user_ips_bounded(slot.recent, user);
        vstd::set_lib::lemma_len_subset(here, slot.recent.user_ips(user));
        assert forall|ip: IpAddr| here.contains(ip) implies state.home(user, ip) == k - 1 by {
            assert(slot.recent.entries.contains_key((user, ip)));
        }
        assert(fresh_before(state, user, now, k) =~= before + here);
        assert(before.disjoint(here));
        vstd::set_lib::lemma_set_disjoint_lens(before, here);
    }
}

/// The number of recent addresses that is reported of a user is the number of
/// different addresses that are listed of it.
pub proof fn lemma_fresh_total_counts_addresses(state: TrackerView, user: Seq<char>, now: u64)
    requires
        state.sound(),
    ensures
        state.fresh_ips(user, now).finite(),
        state.user_fresh_total(user, now) == state.fresh_ips(user, now).len(),
{
    let n = state.shards.len() as int;
    lemma_fresh_before(state, user, now, n);
    assert forall|ip: IpAddr| state.home(user, ip) < n by {
        lemma_home_in_range(state, user, ip);
    }
    assert(fresh_before(state, user, now, n) =~= state.fresh_ips(user, now));
    assert(state.shards.take(n) =~= state.shards);
}

/// Recording a pair adds it to the addresses of its user, once.
proof fn lemma_admitted_user_totals(
    state: TrackerView,
    user: Seq<char>,
    ip: IpAddr,
    sessions: usize,
    now: u64,
)
    requires
        state.sound(),
    ensures
        state.admitted(user, ip, sessions, now).user_active_total(user)
            == state.user_active_total(user) + if state.is_active(user, ip) {
            0nat
        } else {
            1nat
        },
        state.admitted(user, ip, sessions, now).user_recent_total(user)
            == state.user_recent_total(user) + if state.is_recent(user, ip) {
            0nat
        } else {
            1nat
        },
{
    lemma_home_in_range(state, user, ip);
    let h = state.home(user, ip);
    let slot = state.shards[h];
    let grown = slot.admitted(user, ip, sessions, now);
    assert(slot.sound());
    lemma_user_ips_bounded(slot.active, user);
    lemma_user_ips_bounded(slot.recent, user);
    assert(grown.active.user_ips(user) =~= slot.active.user_ips(user).insert(ip));
    assert(grown.recent.user_ips(user) =~= slot.recent.user_ips(user).insert(ip));
    lemma_sum_update(state.shards, h, grown, user_active_size(user));
    lemma_sum_update(state.shards, h, grown, user_recent_size(user));
}

/// The sessions of a user after the preparation of an admission and the
/// enforcement of the window are those after the drain.
proof fn lemma_settled_active_total(
    state: TrackerView,
    user: Seq<char>,
    ip: IpAddr,
    clock: Clock,
)
    requires
        state.sound(),
    ensures
        state.prepared(user, ip, clock).user_active_total(user)
            == state.drained().user_active_total(user),
        state.prepared(user, ip, clock).pruned(user, clock.instant_nanos).user_active_total(user)
            == state.drained().user_active_total(user),
{
    let drained = state.drained();
    let ready = state.prepared(user, ip, clock);
    let settled = ready.pruned(user, clock.instant_nanos);
    lemma_drained_sound(state);
    lemma_compacted_sound(drained, clock);
    lemma_home_in_range(drained.compacted(clock), user, ip);
    let size = user_active_size(user);
    assert forall|i: int| 0 <= i < drained.shards.len() implies ready.shards[i].active.user_ips(
        user,
    ) == (#[trigger] drained.shards[i]).active.user_ips(user) by {
        assert(ready.shards[i].active.entries == drained.shards[i].active.entries);
        assert(ready.shards[i].active.user_ips(user) =~= drained.shards[i].active.user_ips(user));
    }
    assert forall|i: int| 0 <= i < drained.shards.len() implies size(#[trigger] ready.shards[i])
        <= size(drained.shards[i]) by {
        assert(drained.shards[i].active.user_ips(user) == ready.shards[i].active.user_ips(user));
    }
    assert forall|i: int| 0 <= i < drained.shards.len() implies size(#[trigger] drained.shards[i])
        <= size(ready.shards[i]) by {
    }
    lemma_sum_le(ready.shards, drained.shards, size, size);
    lemma_sum_le(drained.shards, ready.shards, size, size);
    assert forall|i: int| 0 <= i < settled.shards.len() implies size(#[trigger] settled.shards[i])
        <= size(ready.shards[i]) by {
    }
    assert forall|i: int| 0 <= i < ready.shards.len() implies size(#[trigger] ready.shards[i])
        <= size(settled.shards[i]) by {
    }
    lemma_sum_le(settled.shards, ready.shards, size, size);
    lemma_sum_le(ready.shards, settled.shards, size, size);
}

/// Where sessions are limited, a user that is within its limit stays within it:
/// a new address is let in only while there is room for it.
pub proof fn lemma_active_limit_is_kept(
    state: TrackerView,
    user: Seq<char>,
    ip: IpAddr,
    clock: Clock,
    limit: usize,
)
    requires
        state.sound(),
        state.limit_of(user) == Some(limit),
        state.mode != UserMaxUniqueIpsMode::TimeWindow,
        state.drained().active_ips(user).len() <= limit,
    ensures
        state.admission(user, ip, clock).0.active_ips(user).finite(),
        state.admission(user, ip, clock).0.active_ips(user).len() <= limit,
{
    let now = clock.instant_nanos;
    let ready = state.prepared(user, ip, clock);
    let settled = ready.pruned(user, now);
    let after = state.admission(user, ip, clock).0;
    lemma_drained_sound(state);
    lemma_prepared_sound(state, user, ip, clock);
    lemma_pruned_sound(ready, user, now);
    lemma_admission_sound(state, user, ip, clock);
    lemma_active_total_counts_addresses(state.drained(), user);
    lemma_active_total_counts_addresses(after, user);
    lemma_settled_active_total(state, user, ip, clock);
    assert(settled.limit_of(user) == state.limit_of(user));
    if ready.is_active(user, ip) {
        lemma_admitted_user_totals(
            ready,
            user,
            ip,
            one_more(ready.sessions(user, ip) as usize),
            now,
        );
    } else {
        lemma_admitted_user_totals(settled, user, ip, 1, now);
    }
}

/// What is recent after the window is enforced was seen within the window.
proof fn lemma_settled_recent(
    state: TrackerView,
    user: Seq<char>,
    ip: IpAddr,
    clock: Clock,
    other: IpAddr,
)
    requires
        state.sound(),
    ensures
        state.prepared(user, ip, clock).pruned(user, clock.instant_nanos).is_recent(user, other)
            <==> state.fresh_ips(user, clock.instant_nanos).contains(other),
{
    let batch = state.queue.take(state.batch_len());
    lemma_release_all_keeps(state, batch);
    lemma_drained_sound(state);
    lemma_compacted_sound(state.drained(), clock);
    lemma_home_in_range(state, user, ip);
    lemma_home_in_range(state, user, other);
    let h = state.home(user, other);
    assert(state.drained().shards[h].recent == state.shards[h].recent);
}

/// Where recent addresses are limited, a first session from an address is let in
/// only if the user then has no more recent addresses than the limit, or had
/// this one already.
pub proof fn lemma_recent_limit_is_kept(
    state: TrackerView,
    user: Seq<char>,
    ip: IpAddr,
    clock: Clock,
    limit: usize,
)
    requires
        state.sound(),
        state.limit_of(user) == Some(limit),
        state.mode != UserMaxUniqueIpsMode::ActiveWindow,
        !state.drained().is_active(user, ip),
        state.admission(user, ip, clock).1 is None,
    ensures
        state.admission(user, ip, clock).0.user_recent_total(user) <= limit || state.fresh_ips(
            user,
            clock.instant_nanos,
        ).contains(ip),
{
    let now = clock.instant_nanos;
    let ready = state.prepared(user, ip, clock);
    let settled = ready.pruned(user, now);
    lemma_prepared_sound(state, user, ip, clock);
    lemma_prepared_keeps_sessions(state, user, ip, clock, user, ip);
    lemma_pruned_sound(ready, user, now);
    lemma_settled_recent(state, user, ip, clock, ip);
    assert(settled.limit_of(user) == state.limit_of(user));
    lemma_admitted_user_totals(settled, user, ip, 1, now);
}

/// In every state that an admission is decided in, a user's recent addresses
/// are those seen within the window.
proof fn lemma_settled_recent_total(
    state: TrackerView,
    user: Seq<char>,
    ip: IpAddr,
    clock: Clock,
)
    requires
        state.sound(),
    ensures
        state.prepared(user, ip, clock).pruned(user, clock.instant_nanos).user_recent_total(user)
            == state.user_fresh_total(user, clock.instant_nanos),
{
    let now = clock.instant_nanos;
    let ready = state.prepared(user, ip, clock);
    let settled = ready.pruned(user, now);
    let batch = state.queue.take(state.batch_len());
    lemma_release_all_keeps(state, batch);
    lemma_drained_sound(state);
    lemma_compacted_sound(state.drained(), clock);
    lemma_home_in_range(state, user, ip);
    let f = user_recent_size(user);
    let g = user_fresh_size(user, now, state.window_secs);
    assert forall|i: int| 0 <= i < state.shards.len() implies settled.shards[i].recent.user_ips(
        user,
    ) == (#[trigger] state.shards[i]).recent.fresh_ips(user, now, state.window_secs) by {
        assert(state.drained().shards[i].recent == state.shards[i].recent);
        assert(settled.shards[i].recent.user_ips(user) =~= state.shards[i].recent.fresh_ips(
            user,
            now,
            state.window_secs,
        ));
    }
    assert forall|i: int| 0 <= i < state.shards.len() implies f(#[trigger] settled.shards[i]) <= g(
        state.shards[i],
    ) by {
        assert(state.shards[i].recent.fresh_ips(user, now, state.window_secs)
            == settled.shards[i].recent.user_ips(user));
    }
    assert forall|i: int| 0 <= i < state.shards.len() implies g(#[trigger] state.shards[i]) <= f(
        settled.shards[i],
    ) by {
    }
    lemma_sum_le(settled.shards, state.shards, f, g);
    lemma_sum_le(state.shards, settled.shards, g, f);
}

/// The figures that an admission is decided by.
pub proof fn lemma_settled_figures(
    state: TrackerView,
    user: Seq<char>,
    ip: IpAddr,
    clock: Clock,
)
    requires
        state.sound(),
    ensures
        ({
            let now = clock.instant_nanos;
            let ready = state.prepared(user, ip, clock);
            let settled = ready.pruned(user, now);
            &&& settled.user_active_total(user) == state.drained().user_active_total(user)
            &&& settled.user_recent_total(user) == state.user_fresh_total(user, now)
            &&& settled.user_active_total(user) <= settled.active_total()
            &&& settled.user_recent_total(user) <= settled.recent_total()
            &&& settled.is_recent(user, ip) <==> state.fresh_ips(user, now).contains(ip)
            &&& ready.is_recent(user, ip) <==> state.fresh_ips(user, now).contains(ip)
        }),
{
    let now = clock.instant_nanos;
    let ready = state.prepared(user, ip, clock);
    let settled = ready.pruned(user, now);
    lemma_settled_active_total(state, user, ip, clock);
    lemma_settled_recent_total(state, user, ip, clock);
    lemma_settled_recent(state, user, ip, clock, ip);
    lemma_prepared_sound(state, user, ip, clock);
    lemma_pruned_sound(ready, user, now);
    lemma_user_totals_bounded(settled.shards, user);
    lemma_drained_sound(state);
    let base = state.drained().compacted(clock);
    lemma_compacted_sound(state.drained(), clock);
    lemma_home_in_range(base, user, ip);
    let h = base.home(user, ip);
    assert(ready.shards[h] == base.shards[h].touched(user, now, state.window_secs));
}

/// When an admission of a pair without a session is refused because of a limit:
/// exactly when the addresses that the mode counts have reached it. Sessions
/// count as the drain left them, recent addresses if they were seen within the
/// window, and an address that is among these already may come back.
pub proof fn lemma_limit_refusal(
    state: TrackerView,
    user: Seq<char>,
    ip: IpAddr,
    clock: Clock,
)
    requires
        state.sound(),
        !state.drained().is_active(user, ip),
    ensures
        ({
            let refused = state.admission(user, ip, clock).1 matches Some(r) && r is UserLimit;
            let recent = state.fresh_ips(user, clock.instant_nanos);
            match state.limit_of(user) {
                None => !refused,
                Some(limit) => {
                    let active_reached = state.drained().active_ips(user).len() >= limit;
                    let recent_reached = recent.len() >= limit && !recent.contains(ip);
                    refused <==> match state.mode {
                        UserMaxUniqueIpsMode::ActiveWindow => active_reached,
                        UserMaxUniqueIpsMode::TimeWindow => recent_reached,
                        UserMaxUniqueIpsMode::Combined => active_reached || recent_reached,
                    }
                },
            }
        }),
{
    let now = clock.instant_nanos;
    let ready = state.prepared(user, ip, clock);
    let settled = ready.pruned(user, now);
    lemma_drained_sound(state);
    lemma_prepared_keeps_sessions(state, user, ip, clock, user, ip);
    lemma_settled_active_total(state, user, ip, clock);
    lemma_settled_recent_total(state, user, ip, clock);
    lemma_settled_recent(state, user, ip, clock, ip);
    lemma_active_total_counts_addresses(state.drained(), user);
    lemma_fresh_total_counts_addresses(state, user, now);
    assert(settled.limit_of(user) == state.limit_of(user));
}

/// Once all that a user was seen from has left the window, a limit on recent
/// addresses no longer keeps it out.
pub proof fn lemma_window_expires(
    state: TrackerView,
    user: Seq<char>,
    ip: IpAddr,
    clock: Clock,
)
    requires
        state.sound(),
        state.mode == UserMaxUniqueIpsMode::TimeWindow,
        forall|other: IpAddr| !state.fresh_ips(user, clock.instant_nanos).contains(other),
    ensures
        state.admission(user, ip, clock).1 matches Some(refusal) ==> !(refusal is UserLimit),
{
    if state.drained().is_active(user, ip) {
        lemma_reconnection_ignores_limits(state, user, ip, clock);
    } else {
        lemma_limit_refusal(state, user, ip, clock);
        let recent = state.fresh_ips(user, clock.instant_nanos);
        assert(recent =~= Set::empty());
    }
}

/// A limit on recent addresses does not keep out an address that was seen within
/// the window.
pub proof fn lemma_recent_address_may_return(
    state: TrackerView,
    user: Seq<char>,
    ip: IpAddr,
    clock: Clock,
)
    requires
        state.sound(),
        state.mode == UserMaxUniqueIpsMode::TimeWindow,
        state.fresh_ips(user, clock.instant_nanos).contains(ip),
    ensures
        state.admission(user, ip, clock).1 matches Some(refusal) ==> !(refusal is UserLimit),
{
    if state.drained().is_active(user, ip) {
        lemma_reconnection_ignores_limits(state, user, ip, clock);
    } else {
        lemma_limit_refusal(state, user, ip, clock);
    }
}

/// While the tracker has room under both caps, only a limit keeps a pair out.
pub proof fn lemma_room_leaves_limits(
    state: TrackerView,
    user: Seq<char>,
    ip: IpAddr,
    clock: Clock,
)
    requires
        state.sound(),
        state.active_total() < MAX_ACTIVE_IP_ENTRIES,
        state.recent_total() < MAX_RECENT_IP_ENTRIES,
    ensures
        state.admission(user, ip, clock).1 matches Some(refusal) ==> refusal is UserLimit,
{
    lemma_room_stays(state, user, ip, clock);
}

/// A user without a limit is kept out by the caps only.
pub proof fn lemma_no_limit_no_refusal(
    state: TrackerView,
    user: Seq<char>,
    ip: IpAddr,
    clock: Clock,
)
    requires
        state.sound(),
        state.limit_of(user) is None,
    ensures
        state.admission(user, ip, clock).1 matches Some(refusal) ==> !(refusal is UserLimit),
{
    if state.drained().is_active(user, ip) {
        lemma_reconnection_ignores_limits(state, user, ip, clock);
    } else {
        lemma_limit_refusal(state, user, ip, clock);
    }
}

/// Preparing an admission only makes room.
proof fn lemma_room_stays(state: TrackerView, user: Seq<char>, ip: IpAddr, clock: Clock)
    requires
        state.sound(),
    ensures
        ({
            let ready = state.prepared(user, ip, clock);
            let settled = ready.pruned(user, clock.instant_nanos);
            &&& ready.recent_total() <= state.recent_total()
            &&& settled.recent_total() <= state.recent_total()
            &&& settled.active_total() <= state.active_total()
        }),
{
    lemma_drained_sound(state);
    let drained = state.drained();
    lemma_compacted_sound(drained, clock);
    let compacted = drained.compacted(clock);
    lemma_touched_sound(compacted, user, ip, clock.instant_nanos);
    let ready = state.prepared(user, ip, clock);
    lemma_pruned_sound(ready, user, clock.instant_nanos);
}

/// The number of shards, and with it the shard of every pair, never changes.
pub proof fn lemma_shards_are_fixed(
    state: TrackerView,
    user: Seq<char>,
    ip: IpAddr,
    clock: Clock,
)
    requires
        state.sound(),
    ensures
        state.drained().shards.len() == state.shards.len(),
        state.compacted(clock).shards.len() == state.shards.len(),
        state.admission(user, ip, clock).0.shards.len() == state.shards.len(),
        state.departure(user, ip, clock).shards.len() == state.shards.len(),
        state.without_user(user).shards.len() == state.shards.len(),
        state.cleared().shards.len() == state.shards.len(),
{
    lemma_release_all_keeps(state, state.queue.take(state.batch_len()));
    lemma_drained_sound(state);
    lemma_compacted_sound(state.drained(), clock);
    lemma_home_in_range(state.drained().compacted(clock), user, ip);
    lemma_prepared_sound(state, user, ip, clock);
    lemma_home_in_range(state.prepared(user, ip, clock), user, ip);
    lemma_compacted_sound(state, clock);
    lemma_home_in_range(state.compacted(clock), user, ip);
}

/// Every drain takes one batch from the queue, so that enough of them empty it.
pub proof fn lemma_drains_empty_the_queue(state: TrackerView, n: nat)
    ensures
        state.drains(n).queue.len() == less(state.queue.len(), n * CLEANUP_DRAIN_BATCH_LIMIT as nat),
    decreases n,
{
    if n > 0 {
        lemma_drains_empty_the_queue(state, (n - 1) as nat);
    }
}

proof fn lemma_ended_sessions_joined(
    a: Seq<PendingRelease>,
    b: Seq<PendingRelease>,
    user: Seq<char>,
    ip: IpAddr,
)
    ensures
        ended_sessions(a + b, user, ip) == ended_sessions(a, user, ip) + ended_sessions(
            b,
            user,
            ip,
        ),
    decreases b.len(),
{
    if b.len() == 0 {
        assert(a + b =~= a);
    } else {
        lemma_ended_sessions_joined(a, b.drop_last(), user, ip);
        assert((a + b).drop_last() =~= a + b.drop_last());
        assert((a + b).last() == b.last());
    }
}

/// Several drains end exactly the sessions that were queued in as many batches of
/// 1024, of each pair as many as it has.
#[verifier::rlimit(40)]
pub proof fn lemma_drains_end_queued_sessions(
    state: TrackerView,
    n: nat,
    user: Seq<char>,
    ip: IpAddr,
)
    requires
        state.sound(),
    ensures
        ({
            let taken = if state.queue.len() < n * 1024 {
                state.queue.len() as int
            } else {
                (n * 1024) as int
            };
            &&& state.drains(n).sound()
            &&& state.drains(n).queue == state.queue.skip(taken)
            &&& state.drains(n).sessions(user, ip) == less(
                state.sessions(user, ip),
                ended_sessions(state.queue.take(taken), user, ip),
            )
        }),
    decreases n,
{
    if n == 0 {
        assert(state.queue.take(0) =~= Seq::empty());
        assert(state.queue.skip(0) =~= state.queue);
    } else {
        let before = state.drains((n - 1) as nat);
        lemma_drains_end_queued_sessions(state, (n - 1) as nat, user, ip);
        lemma_drained_sound(before);
        lemma_drain_ends_queued_sessions(before, user, ip);
        let m = if state.queue.len() < (n - 1) * 1024 {
            state.queue.len() as int
        } else {
            (n - 1) * 1024
        };
        let k = before.batch_len();
        assert(before.queue.take(k) =~= state.queue.subrange(m, m + k));
        assert(state.queue.take(m + k) =~= state.queue.take(m) + state.queue.subrange(m, m + k));
        assert(before.queue.skip(k) =~= state.queue.skip(m + k));
        lemma_ended_sessions_joined(
            state.queue.take(m),
            state.queue.subrange(m, m + k),
            user,
            ip,
        );
    }
}

proof fn lemma_ended_sessions_update(
    queue: Seq<PendingRelease>,
    i: int,
    count: usize,
    user: Seq<char>,
    ip: IpAddr,
)
    requires
        0 <= i < queue.len(),
    ensures
        ended_sessions(
            queue.update(i, PendingRelease { user: queue[i].user, ip: queue[i].ip, count }),
            user,
            ip,
        ) == ended_sessions(queue, user, ip) + if queue[i].user == user && queue[i].ip == ip {
            count - queue[i].count
        } else {
            0
        },
    decreases queue.len(),
{
    let release = PendingRelease { user: queue[i].user, ip: queue[i].ip, count };
    let after = queue.update(i, release);
    if i == queue.len() - 1 {
        assert(after.drop_last() =~= queue.drop_last());
    } else {
        lemma_ended_sessions_update(queue.drop_last(), i, count, user, ip);
        assert(after.drop_last() =~= queue.drop_last().update(i, release));
        assert(after.last() == queue.last());
    }
}

/// Queuing the end of a session counts one more ended session of its pair and
/// none of any other, unless the count could not be raised.
pub proof fn lemma_queuing_counts_one(
    queue: Seq<PendingRelease>,
    user: Seq<char>,
    ip: IpAddr,
    other: Seq<char>,
    other_ip: IpAddr,
)
    requires
        queue_sound(queue),
        forall|i: int| 0 <= i < queue.len() ==> (#[trigger] queue[i]).count < usize::MAX,
    ensures
        ended_sessions(queue_with(queue, user, ip), other, other_ip) == ended_sessions(
            queue,
            other,
            other_ip,
        ) + if (other, other_ip) == (user, ip) {
            1nat
        } else {
            0nat
        },
{
    if is_queued(queue, user, ip) {
        let i = choose|i: int| queued_at(queue, user, ip, i);
        assert(queue[i].count < usize::MAX);
        lemma_ended_sessions_update(
            queue,
            i,
            (queue[i].count + 1) as usize,
            other,
            other_ip,
        );
    } else {
        let release = PendingRelease { user, ip, count: 1 };
        assert(queue.push(release).drop_last() =~= queue);
    }
}

} // verus!

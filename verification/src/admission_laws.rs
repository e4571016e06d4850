//! What decides an admission, and what operations leave alone.

use vstd::prelude::*;
use vstd::utf8::encode_utf8;

use crate::cleanup_queue::PendingRelease;
use crate::clock::Clock;
use crate::ip::IpAddr;
use crate::ip_shard::SlotView;
use crate::ip_table::IpTableView;
use crate::names::{bytes_before, lemma_bytes_irreflexive, lemma_sorted_lists};
use crate::sighting_laws::{
    last_seen, lemma_compaction_sightings, lemma_drain_keeps_sightings,
    lemma_fresh_is_seen_within_window, looked_through, within,
};
use crate::tracker_laws::{
    lemma_active_total_counts_addresses, lemma_compacted_sound, lemma_drained_recents,
    lemma_drained_sound,
    lemma_fresh_total_counts_addresses, lemma_home_in_range, lemma_prepared_keeps_sessions, lemma_prepared_sound, lemma_pruned_sound, lemma_release_all_keeps, lemma_settled_figures,
};
use crate::tracker_model::{
    active_size, recent_size, release_all, row_names, slot_orderly, sum_over, Refusal, TrackerView,
    UserMaxUniqueIpsMode,
};
use crate::tracker_sums::lemma_sum_take;

verus! {

/// All pairs with an open session.
pub open spec fn active_pairs(state: TrackerView) -> Set<(Seq<char>, IpAddr)> {
    Set::new(|pair: (Seq<char>, IpAddr)| state.sessions(pair.0, pair.1) >= 1)
}

/// All pairs that are on record as seen.
pub open spec fn seen_pairs(state: TrackerView) -> Set<(Seq<char>, IpAddr)> {
    Set::new(|pair: (Seq<char>, IpAddr)| last_seen(state, pair.0, pair.1) is Some)
}

spec fn active_pairs_before(state: TrackerView, k: int) -> Set<(Seq<char>, IpAddr)> {
    active_pairs(state).filter(|pair: (Seq<char>, IpAddr)| state.home(pair.0, pair.1) < k)
}

spec fn seen_pairs_before(state: TrackerView, k: int) -> Set<(Seq<char>, IpAddr)> {
    seen_pairs(state).filter(|pair: (Seq<char>, IpAddr)| state.home(pair.0, pair.1) < k)
}

proof fn lemma_pairs_before(state: TrackerView, k: int)
    requires
        state.sound(),
        0 <= k <= state.shards.len(),
    ensures
        active_pairs_before(state, k).finite(),
        active_pairs_before(state, k).len() == sum_over(state.shards.take(k), active_size()),
        seen_pairs_before(state, k).finite(),
        seen_pairs_before(state, k).len() == sum_over(state.shards.take(k), recent_size()),
    decreases k,
{
    if k == 0 {
        assert forall|pair: (Seq<char>, IpAddr)| state.home(pair.0, pair.1) >= 0 by {
        }
        assert(active_pairs_before(state, 0) =~= Set::empty());
        assert(seen_pairs_before(state, 0) =~= Set::empty());
    } else {
        let slot = state.shards[k - 1];
        lemma_pairs_before(state, k - 1);
        lemma_sum_take(state.shards, k - 1, active_size());
        lemma_sum_take(state.shards, k - 1, recent_size());
        assert(slot.sound());
        assert(slot_orderly(slot, k - 1, state.mask()));
        let active = slot.active.entries.dom();
        let seen = slot.recent.entries.dom();
        assert forall|pair: (Seq<char>, IpAddr)| active.contains(pair) implies state.home(
            pair.0,
            pair.1,
        ) == k - 1 && slot.active.entries[pair] >= 1 by {
            assert(slot.active.entries.contains_key((pair.0, pair.1)));
        }
        assert forall|pair: (Seq<char>, IpAddr)| seen.contains(pair) implies state.home(
            pair.0,
            pair.1,
        ) == k - 1 by {
            assert(slot.recent.entries.contains_key((pair.0, pair.1)));
        }
        assert(active_pairs_before(state, k) =~= active_pairs_before(state, k - 1) + active) by {
            assert forall|pair: (Seq<char>, IpAddr)|
                active_pairs_before(state, k).contains(pair) == (active_pairs_before(
                    state,
                    k - 1,
                ) + active).contains(pair) by {
                assert(pair == (pair.0, pair.1));
            }
        }
        assert(seen_pairs_before(state, k) =~= seen_pairs_before(state, k - 1) + seen) by {
            assert forall|pair: (Seq<char>, IpAddr)|
                seen_pairs_before(state, k).contains(pair) == (seen_pairs_before(state, k - 1)
                    + seen).contains(pair) by {
                assert(pair == (pair.0, pair.1));
            }
        }
        vstd::set_lib::lemma_set_disjoint_lens(active_pairs_before(state, k - 1), active);
        vstd::set_lib::lemma_set_disjoint_lens(seen_pairs_before(state, k - 1), seen);
    }
}

/// The numbers of entries that are reported and capped are the numbers of
/// different pairs with a session, and of different pairs on record as seen.
pub proof fn lemma_totals_count_pairs(state: TrackerView)
    requires
        state.sound(),
    ensures
        active_pairs(state).finite(),
        state.active_total() == active_pairs(state).len(),
        seen_pairs(state).finite(),
        state.recent_total() == seen_pairs(state).len(),
{
    let n = state.shards.len() as int;
    lemma_pairs_before(state, n);
    assert forall|pair: (Seq<char>, IpAddr)| state.home(pair.0, pair.1) < n by {
        lemma_home_in_range(state, pair.0, pair.1);
    }
    assert(active_pairs_before(state, n) =~= active_pairs(state));
    assert(seen_pairs_before(state, n) =~= seen_pairs(state));
    assert(state.shards.take(n) =~= state.shards);
}

/// The users that are counted are those with a pair that has a session, and
/// those with a pair on record as seen.
pub proof fn lemma_counted_users(state: TrackerView, user: Seq<char>)
    requires
        state.sound(),
    ensures
        state.active_users().contains(user) <==> exists|ip: IpAddr|
            #[trigger] state.sessions(user, ip) >= 1,
        state.recent_users().contains(user) <==> exists|ip: IpAddr|
            (#[trigger] last_seen(state, user, ip)) is Some,
{
    if state.active_users().contains(user) {
        let i = choose|i: int|
            0 <= i < state.shards.len() && (#[trigger] state.shards[i]).active.owns_any(user);
        let ip = choose|ip: IpAddr| state.shards[i].active.entries.contains_key((user, ip));
        assert(slot_orderly(state.shards[i], i, state.mask()));
        assert(state.shards[i].active.entries.contains_key((user, ip)));
        assert(state.sessions(user, ip) >= 1);
    }
    if exists|ip: IpAddr| #[trigger] state.sessions(user, ip) >= 1 {
        let ip = choose|ip: IpAddr| #[trigger] state.sessions(user, ip) >= 1;
        lemma_home_in_range(state, user, ip);
        let h = state.home(user, ip);
        assert(state.shards[h].active.entries.contains_key((user, ip)));
        assert(state.shards[h].active.owns_any(user));
    }
    if state.recent_users().contains(user) {
        let i = choose|i: int|
            0 <= i < state.shards.len() && (#[trigger] state.shards[i]).recent.owns_any(user);
        let ip = choose|ip: IpAddr| state.shards[i].recent.entries.contains_key((user, ip));
        assert(slot_orderly(state.shards[i], i, state.mask()));
        assert(state.shards[i].recent.entries.contains_key((user, ip)));
        assert(last_seen(state, user, ip) is Some);
    }
    if exists|ip: IpAddr| (#[trigger] last_seen(state, user, ip)) is Some {
        let ip = choose|ip: IpAddr| (#[trigger] last_seen(state, user, ip)) is Some;
        lemma_home_in_range(state, user, ip);
        let h = state.home(user, ip);
        assert(state.shards[h].recent.entries.contains_key((user, ip)));
        assert(state.shards[h].recent.owns_any(user));
    }
}

/// An attempt leaves all settings and the count of deferred releases alone. It
/// takes a batch of at most 1024 releases off the front of the queue, notes a
/// compaction when a minute has passed since the last, and counts a refusal by
/// a cap, and only that.
pub proof fn lemma_admission_frame(
    state: TrackerView,
    user: Seq<char>,
    ip: IpAddr,
    clock: Clock,
)
    ensures
        ({
            let (after, refusal) = state.admission(user, ip, clock);
            &&& after.limits == state.limits
            &&& after.default_limit == state.default_limit
            &&& after.mode == state.mode
            &&& after.window_secs == state.window_secs
            &&& after.deferred_releases == state.deferred_releases
            &&& after.queue == state.queue.skip(
                if state.queue.len() < 1024 {
                    state.queue.len() as int
                } else {
                    1024
                },
            )
            &&& after.last_compact_epoch_secs == if clock.epoch_secs
                - state.last_compact_epoch_secs >= 60 {
                clock.epoch_secs
            } else {
                state.last_compact_epoch_secs
            }
            &&& after.active_cap_rejects == if refusal matches Some(r) && r is ActiveCap {
                state.active_cap_rejects.wrapping_add(1)
            } else {
                state.active_cap_rejects
            }
            &&& after.recent_cap_rejects == if refusal matches Some(r) && r is RecentCap {
                state.recent_cap_rejects.wrapping_add(1)
            } else {
                state.recent_cap_rejects
            }
        }),
{
}

/// The end of a session leaves all settings, the queue and all counters alone,
/// and notes a compaction when a minute has passed since the last.
pub proof fn lemma_departure_frame(
    state: TrackerView,
    user: Seq<char>,
    ip: IpAddr,
    clock: Clock,
)
    ensures
        ({
            let after = state.departure(user, ip, clock);
            &&& after.limits == state.limits
            &&& after.default_limit == state.default_limit
            &&& after.mode == state.mode
            &&& after.window_secs == state.window_secs
            &&& after.queue == state.queue
            &&& after.deferred_releases == state.deferred_releases
            &&& after.active_cap_rejects == state.active_cap_rejects
            &&& after.recent_cap_rejects == state.recent_cap_rejects
            &&& after.last_compact_epoch_secs == if clock.epoch_secs
                - state.last_compact_epoch_secs >= 60 {
                clock.epoch_secs
            } else {
                state.last_compact_epoch_secs
            }
        }),
{
}

/// A drain takes a batch of at most 1024 releases off the front of the queue and
/// leaves all settings and counters alone; so does a compaction with the queue.
pub proof fn lemma_maintenance_frame(state: TrackerView, clock: Clock)
    ensures
        ({
            let after = state.drained();
            &&& after == TrackerView { shards: after.shards, queue: after.queue, ..state }
            &&& after.queue == state.queue.skip(
                if state.queue.len() < 1024 {
                    state.queue.len() as int
                } else {
                    1024
                },
            )
        }),
        ({
            let after = state.compacted(clock);
            &&& after == TrackerView {
                shards: after.shards,
                last_compact_epoch_secs: after.last_compact_epoch_secs,
                ..state
            }
            &&& after.last_compact_epoch_secs == if clock.epoch_secs
                - state.last_compact_epoch_secs >= 60 {
                clock.epoch_secs
            } else {
                state.last_compact_epoch_secs
            }
        }),
{
}

/// Clearing a user or all users leaves everything but the shards alone.
pub proof fn lemma_clearing_frame(state: TrackerView, user: Seq<char>)
    ensures
        state.without_user(user) == (TrackerView {
            shards: state.without_user(user).shards,
            ..state
        }),
        state.cleared() == (TrackerView { shards: state.cleared().shards, ..state }),
{
}

/// What is on record as seen when an attempt is decided: all that was, but for what
/// has left the window among the pairs that the attempt looks through.
pub open spec fn still_on_record(
    state: TrackerView,
    user: Seq<char>,
    ip: IpAddr,
    clock: Clock,
) -> Set<(Seq<char>, IpAddr)> {
    Set::new(
        |pair: (Seq<char>, IpAddr)|
            last_seen(state, pair.0, pair.1) matches Some(seen) && (within(
                seen,
                clock.instant_nanos,
                state.window_secs,
            ) || !looked_through(state, user, ip, clock, pair.0, pair.1)),
    )
}

#[verifier::rlimit(40)]
proof fn lemma_still_on_record(state: TrackerView, user: Seq<char>, ip: IpAddr, clock: Clock)
    requires
        state.sound(),
    ensures
        still_on_record(state, user, ip, clock) == if state.drained().is_active(user, ip) {
            seen_pairs(state.prepared(user, ip, clock))
        } else {
            seen_pairs(state.prepared(user, ip, clock).pruned(user, clock.instant_nanos))
        },
{
    let now = clock.instant_nanos;
    let drained = state.drained();
    let compacted = drained.compacted(clock);
    let ready = state.prepared(user, ip, clock);
    let settled = ready.pruned(user, now);
    let held = if drained.is_active(user, ip) {
        ready
    } else {
        settled
    };
    lemma_drained_sound(state);
    lemma_compacted_sound(drained, clock);
    lemma_prepared_sound(state, user, ip, clock);
    lemma_drained_recents(state);
    lemma_home_in_range(compacted, user, ip);
    let h = compacted.home(user, ip);
    assert(ready.shards[h] == compacted.shards[h].touched(user, now, compacted.window_secs));
    assert forall|pair: (Seq<char>, IpAddr)|
        still_on_record(state, user, ip, clock).contains(pair) == seen_pairs(held).contains(pair) by {
        lemma_drain_keeps_sightings(state, pair.0, pair.1);
        lemma_compaction_sightings(drained, clock, pair.0, pair.1);
        lemma_home_in_range(compacted, pair.0, pair.1);
        let o = compacted.home(pair.0, pair.1);
        assert(o != h ==> ready.shards[o] == compacted.shards[o]);
        assert(settled.shards[o] == ready.shards[o].pruned(user, now, ready.window_secs));
    }
    assert(still_on_record(state, user, ip, clock) =~= seen_pairs(held));
}

/// Who is kept out, and why. A pair with a session is kept out only if it is not
/// on record as seen within the window and there are 262144 pairs on record. A
/// pair without one is kept out by the limit of its user first, then if 131072
/// pairs have a session, then if it was not seen within the window and there are
/// 262144 pairs on record.
#[verifier::rlimit(40)]
pub proof fn lemma_decision(state: TrackerView, user: Seq<char>, ip: IpAddr, clock: Clock)
    requires
        state.sound(),
    ensures
        ({
            let refusal = state.admission(user, ip, clock).1;
            let now = clock.instant_nanos;
            let known = last_seen(state, user, ip) matches Some(seen) && within(
                seen,
                now,
                state.window_secs,
            );
            let no_record = !known && still_on_record(state, user, ip, clock).len() >= 262_144;
            let active = state.drained().active_ips(user).len();
            let recent = state.fresh_ips(user, now).len();
            let limited = match state.limit_of(user) {
                None => false,
                Some(limit) => match state.mode {
                    UserMaxUniqueIpsMode::ActiveWindow => active >= limit,
                    UserMaxUniqueIpsMode::TimeWindow => recent >= limit && !known,
                    UserMaxUniqueIpsMode::Combined => active >= limit || (recent >= limit
                        && !known),
                },
            };
            if state.drained().is_active(user, ip) {
                refusal == if no_record {
                    Some(Refusal::RecentCap { entries: 262_144 })
                } else {
                    None
                }
            } else if limited {
                refusal == Some(
                    Refusal::UserLimit {
                        active: active as usize,
                        recent: recent as usize,
                        limit: state.limit_of(user).unwrap(),
                        mode: state.mode,
                    },
                ) && active <= 131_072 && recent <= 262_144
            } else if active_pairs(state.drained()).len() >= 131_072 {
                refusal == Some(Refusal::ActiveCap { entries: 131_072 })
            } else if no_record {
                refusal == Some(Refusal::RecentCap { entries: 262_144 })
            } else {
                refusal is None
            }
        }),
{
    let now = clock.instant_nanos;
    let ready = state.prepared(user, ip, clock);
    let settled = ready.pruned(user, now);
    lemma_drained_sound(state);
    lemma_prepared_sound(state, user, ip, clock);
    lemma_pruned_sound(ready, user, now);
    lemma_prepared_keeps_sessions(state, user, ip, clock, user, ip);
    lemma_settled_figures(state, user, ip, clock);
    lemma_still_on_record(state, user, ip, clock);
    lemma_active_total_counts_addresses(state.drained(), user);
    lemma_fresh_total_counts_addresses(state, user, now);
    lemma_totals_count_pairs(ready);
    lemma_totals_count_pairs(settled);
    lemma_totals_count_pairs(state.drained());
    lemma_fresh_is_seen_within_window(state, user, ip, now);
    assert(settled.limit_of(user) == state.limit_of(user));
    assert(active_pairs(settled) =~= active_pairs(state.drained())) by {
        assert forall|pair: (Seq<char>, IpAddr)|
            active_pairs(settled).contains(pair) == active_pairs(state.drained()).contains(
                pair,
            ) by {
            lemma_prepared_keeps_sessions(state, user, ip, clock, pair.0, pair.1);
            lemma_home_in_range(ready, pair.0, pair.1);
            assert(settled.shards[ready.home(pair.0, pair.1)].active == ready.shards[ready.home(
                pair.0,
                pair.1,
            )].active);
        }
    }
}

/// Two trackers in the same state decide alike, and what decides about a user is
/// its own: with room under the caps and no queued releases, only the sessions
/// and sightings of the user itself and its limit matter.
pub proof fn lemma_users_are_independent(
    a: TrackerView,
    b: TrackerView,
    user: Seq<char>,
    ip: IpAddr,
    clock: Clock,
)
    requires
        a.sound(),
        b.sound(),
        a.drained().active_ips(user) == b.drained().active_ips(user),
        a.fresh_ips(user, clock.instant_nanos) == b.fresh_ips(user, clock.instant_nanos),
        a.limit_of(user) == b.limit_of(user),
        a.mode == b.mode,
        active_pairs(a.drained()).len() < 131_072,
        active_pairs(b.drained()).len() < 131_072,
        still_on_record(a, user, ip, clock).len() < 262_144,
        still_on_record(b, user, ip, clock).len() < 262_144,
    ensures
        a.admission(user, ip, clock).1 == b.admission(user, ip, clock).1,
{
    lemma_decision(a, user, ip, clock);
    lemma_decision(b, user, ip, clock);
    lemma_fresh_is_seen_within_window(a, user, ip, clock.instant_nanos);
    lemma_fresh_is_seen_within_window(b, user, ip, clock.instant_nanos);
    assert(a.fresh_ips(user, clock.instant_nanos).contains(ip) == b.fresh_ips(
        user,
        clock.instant_nanos,
    ).contains(ip));
    assert(a.drained().active_ips(user).contains(ip) == a.drained().is_active(user, ip));
    assert(b.drained().active_ips(user).contains(ip) == b.drained().is_active(user, ip));
}

/// An attempt puts its user on the list, whatever comes of it, and changes the
/// place of no other user except by draining and compacting.
pub proof fn lemma_admission_listing(
    state: TrackerView,
    user: Seq<char>,
    ip: IpAddr,
    clock: Clock,
    other: Seq<char>,
)
    requires
        state.sound(),
    ensures
        state.admission(user, ip, clock).0.listed_users().contains(user),
        other != user ==> (state.admission(user, ip, clock).0.listed_users().contains(other)
            <==> state.drained().compacted(clock).listed_users().contains(other)),
{
    let now = clock.instant_nanos;
    lemma_drained_sound(state);
    let base = state.drained().compacted(clock);
    lemma_compacted_sound(state.drained(), clock);
    lemma_home_in_range(base, user, ip);
    let h = base.home(user, ip);
    let ready = state.prepared(user, ip, clock);
    let after = state.admission(user, ip, clock).0;
    assert(ready.shards[h].active.users.contains(user));
    assert(after.shards.len() == base.shards.len());
    assert forall|i: int| 0 <= i < base.shards.len() implies (
    #[trigger] after.shards[i]).active.users.contains(other) == (
    base.shards[i].active.users.contains(other) || (i == h && other == user)) by {
        assert(ready.shards[i].active.users.contains(other) == (
        base.shards[i].active.users.contains(other) || (i == h && other == user)));
    }
    assert(after.shards[h].active.users.contains(user));
    if base.listed_users().contains(other) {
        let i = choose|i: int|
            0 <= i < base.shards.len() && (#[trigger] base.shards[i]).active.users.contains(other);
        assert(after.shards[i].active.users.contains(other));
    }
    if other != user && after.listed_users().contains(other) {
        let i = choose|i: int|
            0 <= i < after.shards.len() && (#[trigger] after.shards[i]).active.users.contains(
                other,
            );
        assert(base.shards[i].active.users.contains(other));
    }
}

/// A due compaction takes a user off the list of a shard exactly when the user
/// has neither a session nor a sighting within the window there; one that is not
/// due takes nobody off.
pub proof fn lemma_compaction_listing(
    state: TrackerView,
    clock: Clock,
    i: int,
    user: Seq<char>,
)
    requires
        0 <= i < state.shards.len(),
    ensures
        state.compacted(clock).shards[i].active.users.contains(user)
            <==> state.shards[i].active.users.contains(user) && (clock.epoch_secs
            - state.last_compact_epoch_secs < 60 || (exists|ip: IpAddr| #[trigger]
            state.shards[i].active.entries.contains_key((user, ip))) || (exists|ip: IpAddr|
            (#[trigger] state.shards[i].recent.entries.contains_key((user, ip))) && within(
                state.shards[i].recent.entries[(user, ip)],
                clock.instant_nanos,
                state.window_secs,
            ))),
{
    let slot = state.shards[i];
    let kept = SlotView {
        recent: slot.recent.pruned(None, clock.instant_nanos, state.window_secs),
        ..slot
    };
    if clock.epoch_secs - state.last_compact_epoch_secs >= 60 {
        assert(state.compacted(clock).shards[i] == slot.compacted(
            clock.instant_nanos,
            state.window_secs,
        ));
        if kept.recent.owns_any(user) {
            let ip = choose|ip: IpAddr| kept.recent.entries.contains_key((user, ip));
            assert(kept.recent.entries.contains_key((user, ip)));
            assert(slot.recent.entries.contains_key((user, ip)));
        }
        if exists|ip: IpAddr|
            (#[trigger] slot.recent.entries.contains_key((user, ip))) && within(
                slot.recent.entries[(user, ip)],
                clock.instant_nanos,
                state.window_secs,
            ) {
            let ip = choose|ip: IpAddr|
                (#[trigger] slot.recent.entries.contains_key((user, ip))) && within(
                    slot.recent.entries[(user, ip)],
                    clock.instant_nanos,
                    state.window_secs,
                );
            assert(kept.recent.entries.contains_key((user, ip)));
        }
    }
}

/// The end of a session takes its user off the list of the pair's shard exactly
/// when no session of the user is left there, and changes no other place on a
/// list except by compacting.
pub proof fn lemma_departure_listing(
    state: TrackerView,
    user: Seq<char>,
    ip: IpAddr,
    clock: Clock,
    i: int,
    other: Seq<char>,
)
    requires
        state.sound(),
        0 <= i < state.shards.len(),
    ensures
        ({
            let after = state.departure(user, ip, clock);
            let listed = state.compacted(clock).shards[i].active.users.contains(other);
            after.shards[i].active.users.contains(other) <==> if other == user && i == state.home(
                user,
                ip,
            ) {
                exists|a: IpAddr| #[trigger] after.shards[i].active.entries.contains_key((user, a))
            } else {
                listed
            }
        }),
{
    let ready = state.compacted(clock);
    lemma_compacted_sound(state, clock);
    lemma_home_in_range(ready, user, ip);
    let h = ready.home(user, ip);
    let slot = ready.shards[h];
    let after = slot.released(user, ip, 1);
    assert(slot.sound());
    if i == h && other == user {
        assert(state.departure(user, ip, clock).shards[h] == after);
        if after.active.owns_any(user) {
            let a = choose|a: IpAddr| after.active.entries.contains_key((user, a));
            assert(after.active.entries.contains_key((user, a)));
            assert(slot.active.entries.contains_key((user, a)));
        }
        if slot.active.entries.contains_key((user, ip)) && slot.active.entries[(user, ip)] > 1 {
            assert(after.active.entries.contains_key((user, ip)));
        }
    }
}

/// Whether a release in the batch concerns a user in a shard.
pub open spec fn concerns(
    state: TrackerView,
    batch: Seq<PendingRelease>,
    user: Seq<char>,
    i: int,
) -> bool {
    exists|k: int|
        0 <= k < batch.len() && (#[trigger] batch[k]).user == user && state.home(
            user,
            batch[k].ip,
        ) == i
}

#[verifier::rlimit(40)]
proof fn lemma_release_all_listing(
    state: TrackerView,
    batch: Seq<PendingRelease>,
    i: int,
    user: Seq<char>,
)
    requires
        state.sound(),
        forall|k: int| 0 <= k < batch.len() ==> (#[trigger] batch[k]).count >= 1,
        0 <= i < state.shards.len(),
    ensures
        ({
            let after = release_all(state.shards, batch);
            &&& after.len() == state.shards.len()
            &&& after[i].active.users.contains(user) <==> if concerns(state, batch, user, i) {
                after[i].active.owns_any(user)
            } else {
                state.shards[i].active.users.contains(user)
            }
        }),
    decreases batch.len(),
{
    if batch.len() > 0 {
        let shorter = batch.drop_last();
        let release = batch.last();
        assert(batch[batch.len() - 1] == release);
        assert forall|k: int| 0 <= k < shorter.len() implies (#[trigger] shorter[k]).count >= 1 by {
            assert(shorter[k] == batch[k]);
        }
        lemma_release_all_listing(state, shorter, i, user);
        lemma_release_all_keeps(state, shorter);
        lemma_home_in_range(state, release.user, release.ip);
        let h = state.home(release.user, release.ip);
        let prior = release_all(state.shards, shorter);
        let after = release_all(state.shards, batch);
        let slot = prior[h];
        assert(slot.sound());
        assert(after == prior.update(h, slot.released(release.user, release.ip, release.count)));
        if concerns(state, shorter, user, i) {
            let k = choose|k: int|
                0 <= k < shorter.len() && (#[trigger] shorter[k]).user == user && state.home(
                    user,
                    shorter[k].ip,
                ) == i;
            assert(batch[k].user == user && state.home(user, batch[k].ip) == i);
        }
        if concerns(state, batch, user, i) && !(release.user == user && h == i) {
            let k = choose|k: int|
                0 <= k < batch.len() && (#[trigger] batch[k]).user == user && state.home(
                    user,
                    batch[k].ip,
                ) == i;
            assert(shorter[k].user == user && state.home(user, shorter[k].ip) == i);
        }
        if i == h {
            lemma_released_users(slot.active, release.user, release.ip, release.count, user);
        }
    }
}

proof fn lemma_released_users(
    table: IpTableView<usize>,
    user: Seq<char>,
    ip: IpAddr,
    count: usize,
    other: Seq<char>,
)
    requires
        table.sound(),
        count >= 1,
    ensures
        ({
            let after = table.released(user, ip, count);
            &&& other == user ==> (after.users.contains(user) <==> after.owns_any(user))
            &&& other != user ==> after.users.contains(other) == table.users.contains(other)
            &&& other != user ==> after.owns_any(other) == table.owns_any(other)
        }),
{
    let after = table.released(user, ip, count);
    if other != user {
        if table.owns_any(other) {
            let a = choose|a: IpAddr| #[trigger] table.entries.contains_key((other, a));
            assert(after.entries.contains_key((other, a)));
        }
        if after.owns_any(other) {
            let a = choose|a: IpAddr| #[trigger] after.entries.contains_key((other, a));
            assert(table.entries.contains_key((other, a)));
        }
    } else {
        if after.owns_any(user) {
            let a = choose|a: IpAddr| #[trigger] after.entries.contains_key((user, a));
            assert(table.entries.contains_key((user, a)));
        }
        if table.entries.contains_key((user, ip)) && table.entries[(user, ip)] > count {
            assert(after.entries.contains_key((user, ip)));
        }
    }
}

/// A drain takes a user off the list of a shard exactly when it applies a release
/// of the user there and no session of the user is left there, and puts nobody on
/// a list.
pub proof fn lemma_drain_listing(state: TrackerView, user: Seq<char>, i: int)
    requires
        state.sound(),
        0 <= i < state.shards.len(),
    ensures
        ({
            let n = if state.queue.len() < 1024 {
                state.queue.len() as int
            } else {
                1024
            };
            let after = state.drained();
            let left = exists|ip: IpAddr| #[trigger]
                after.shards[i].active.entries.contains_key((user, ip));
            after.shards[i].active.users.contains(user) <==> if concerns(
                state,
                state.queue.take(n),
                user,
                i,
            ) {
                left
            } else {
                state.shards[i].active.users.contains(user)
            }
        }),
{
    let batch = state.queue.take(state.batch_len());
    assert forall|k: int| 0 <= k < batch.len() implies (#[trigger] batch[k]).count >= 1 by {
        assert(state.queue[k].count >= 1);
    }
    lemma_release_all_listing(state, batch, i, user);
}

/// Ending some sessions of a pair takes that many from it, or all that it has, and
/// none from another pair. Ending no session changes nothing.
pub proof fn lemma_released_counts(
    table: IpTableView<usize>,
    user: Seq<char>,
    ip: IpAddr,
    count: usize,
    other: Seq<char>,
    other_ip: IpAddr,
)
    requires
        table.sound(),
    ensures
        ({
            let after = table.released(user, ip, count);
            let had = table.entries.contains_key((other, other_ip));
            let has = after.entries.contains_key((other, other_ip));
            &&& count == 0 ==> after == table
            &&& (other, other_ip) != (user, ip) ==> has == had && (had ==> after.entries[(
                other,
                other_ip,
            )] == table.entries[(other, other_ip)])
            &&& (other, other_ip) == (user, ip) && count > 0 ==> {
                &&& has <==> had && table.entries[(user, ip)] > count
                &&& has ==> after.entries[(user, ip)] == table.entries[(user, ip)] - count
            }
        }),
{
}

/// A cleared user is on no list, everybody else stays, and clearing all empties
/// the list.
pub proof fn lemma_clearing_listing(state: TrackerView, user: Seq<char>, other: Seq<char>)
    ensures
        !state.without_user(user).listed_users().contains(user),
        other != user ==> (state.without_user(user).listed_users().contains(other)
            <==> state.listed_users().contains(other)),
        !state.cleared().listed_users().contains(other),
{
    let after = state.without_user(user);
    assert forall|i: int| 0 <= i < state.shards.len() implies (
    #[trigger] after.shards[i]).active.users == state.shards[i].active.users.remove(user) by {
    }
    if state.listed_users().contains(other) && other != user {
        let i = choose|i: int|
            0 <= i < state.shards.len() && (#[trigger] state.shards[i]).active.users.contains(
                other,
            );
        assert(after.shards[i].active.users.contains(other));
    }
}

/// A report lists each user that some shard lists once, in the byte order of
/// names, with the number of its addresses that have a session and its limit,
/// zero standing for none.
pub proof fn lemma_stats_rows(
    state: TrackerView,
    rows: Seq<(Seq<char>, usize, usize)>,
    i: int,
)
    requires
        state.sound(),
        state.stats_report(rows),
        0 <= i < rows.len(),
    ensures
        rows[i].1 == state.active_ips(rows[i].0).len(),
        rows[i].2 == (match state.limit_of(rows[i].0) {
            Some(limit) => limit,
            None => 0,
        }),
        state.listed_users().contains(rows[i].0),
        forall|j: int|
            i < j < rows.len() ==> rows[i].0 != (#[trigger] rows[j]).0 && bytes_before(
                encode_utf8(rows[i].0),
                encode_utf8(rows[j].0),
            ),
{
    let names = row_names(rows);
    lemma_active_total_counts_addresses(state, rows[i].0);
    crate::tracker_sums::lemma_user_totals_bounded(state.shards, rows[i].0);
    assert(rows[i] == state.stats_row(rows[i].0));
    assert(names[i] == rows[i].0);
    assert(names.to_set().contains(names[i]));
    assert forall|j: int| i < j < rows.len() implies rows[i].0 != (#[trigger] rows[j]).0
        && bytes_before(encode_utf8(rows[i].0), encode_utf8(rows[j].0)) by {
        assert(names[j] == rows[j].0);
        lemma_bytes_irreflexive(encode_utf8(names[i]));
        lemma_sorted_lists(names, Seq::empty());
    }
}

/// Every listed user has a row.
pub proof fn lemma_stats_are_complete(
    state: TrackerView,
    rows: Seq<(Seq<char>, usize, usize)>,
    user: Seq<char>,
)
    requires
        state.stats_report(rows),
        state.listed_users().contains(user),
    ensures
        exists|i: int| 0 <= i < rows.len() && (#[trigger] rows[i]).0 == user,
{
    let names = row_names(rows);
    assert(names.to_set().contains(user));
    let i = choose|i: int| 0 <= i < names.len() && names[i] == user;
    assert(rows[i].0 == user);
}

/// A report of recent addresses has an entry for every name that was asked for
/// and for no other, and says of each which addresses are on record as seen
/// within the window.
pub proof fn lemma_recent_ips_rows(
    state: TrackerView,
    names: Seq<Seq<char>>,
    now: u64,
    lists: Map<Seq<char>, Set<IpAddr>>,
    user: Seq<char>,
    ip: IpAddr,
)
    requires
        state.recent_ips_report(names, now, lists),
    ensures
        lists.contains_key(user) <==> names.contains(user),
        names.contains(user) ==> (lists[user].contains(ip) <==> (last_seen(
            state,
            user,
            ip,
        ) matches Some(seen) && within(seen, now, state.window_secs))),
{
    lemma_fresh_is_seen_within_window(state, user, ip, now);
    assert(names.to_set().contains(user) == names.contains(user));
    assert(lists.dom().contains(user) == lists.contains_key(user));
}

proof fn lemma_occurrences_are_counted(names: Seq<Seq<char>>, name: Seq<char>)
    ensures
        crate::tracker_model::occurrences(names, name) == names.to_multiset().count(name),
    decreases names.len(),
{
    broadcast use vstd::seq_lib::group_to_multiset_ensures;

    if names.len() > 0 {
        lemma_occurrences_are_counted(names.drop_last(), name);
        assert(names =~= names.drop_last().push(names.last()));
    }
}

/// A report of recent counts has an entry for every name that was asked for and
/// for no other, and gives for each the number of addresses on record as seen
/// within the window, as often as the name was asked for, or the largest number
/// that fits.
pub proof fn lemma_recent_counts_rows(
    state: TrackerView,
    names: Seq<Seq<char>>,
    now: u64,
    counts: Map<Seq<char>, usize>,
    user: Seq<char>,
)
    requires
        state.sound(),
        state.recent_counts_report(names, now, counts),
    ensures
        counts.contains_key(user) <==> names.contains(user),
        names.contains(user) ==> {
            let times = names.to_multiset().count(user);
            let all = times * state.fresh_ips(user, now).len();
            counts[user] == if all <= usize::MAX {
                all as int
            } else {
                usize::MAX as int
            }
        },
{
    lemma_occurrences_are_counted(names, user);
    lemma_fresh_total_counts_addresses(state, user, now);
    assert(names.to_set().contains(user) == names.contains(user));
    assert(counts.dom().contains(user) == counts.contains_key(user));
}

} // verus!

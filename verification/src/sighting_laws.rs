//! When each pair was last seen, and what operations do to that.

use vstd::prelude::*;

use crate::clock::{latest_nanos, one_more_reading, Clock};
use crate::ip::IpAddr;
use crate::tracker_laws::{
    lemma_admission_sound, lemma_compacted_sound, lemma_departure_sound, lemma_drained_recents,
    lemma_drained_sound, lemma_fresh_total_counts_addresses, lemma_home_in_range,
    lemma_limit_refusal, lemma_prepared_keeps_sessions, lemma_prepared_sound,
};
use crate::tracker_model::{TrackerView, UserMaxUniqueIpsMode};

verus! {

/// When a pair was last seen, in nanoseconds, if that is on record.
pub open spec fn last_seen(state: TrackerView, user: Seq<char>, ip: IpAddr) -> Option<u64> {
    let seen = state.shards[state.home(user, ip)].recent.entries;
    if seen.contains_key((user, ip)) {
        Some(seen[(user, ip)])
    } else {
        None
    }
}

/// Whether at most `window_secs` whole seconds lie between `seen` and `now`.
pub open spec fn within(seen: u64, now: u64, window_secs: u64) -> bool {
    now as int - seen as int <= window_secs as int * 1_000_000_000
}

/// An address is reported as recent exactly when it is on record as seen within
/// the window.
pub proof fn lemma_fresh_is_seen_within_window(
    state: TrackerView,
    user: Seq<char>,
    ip: IpAddr,
    now: u64,
)
    ensures
        state.fresh_ips(user, now).contains(ip) <==> (last_seen(state, user, ip) matches Some(
            seen,
        ) && within(seen, now, state.window_secs)),
        state.is_recent(user, ip) <==> last_seen(state, user, ip) is Some,
{
}

/// A drain forgets no sighting and makes none.
pub proof fn lemma_drain_keeps_sightings(state: TrackerView, user: Seq<char>, ip: IpAddr)
    requires
        state.sound(),
    ensures
        last_seen(state.drained(), user, ip) == last_seen(state, user, ip),
{
    lemma_drained_recents(state);
    lemma_home_in_range(state, user, ip);
    assert(state.drained().shards[state.home(user, ip)].recent == state.shards[state.home(
        user,
        ip,
    )].recent);
}

/// A compaction forgets exactly the sightings that have left the window, when at
/// least a minute has passed since the one before, and none otherwise.
pub proof fn lemma_compaction_sightings(
    state: TrackerView,
    clock: Clock,
    user: Seq<char>,
    ip: IpAddr,
)
    requires
        state.sound(),
    ensures
        last_seen(state.compacted(clock), user, ip) == match last_seen(state, user, ip) {
            Some(seen) => if clock.epoch_secs - state.last_compact_epoch_secs >= 60 && !within(
                seen,
                clock.instant_nanos,
                state.window_secs,
            ) {
                None
            } else {
                Some(seen)
            },
            None => None,
        },
{
    lemma_home_in_range(state, user, ip);
}

/// Whether an attempt of `user` from `ip` looks through the sightings of
/// `other` from `other_ip` for those that have left the window.
pub open spec fn looked_through(
    state: TrackerView,
    user: Seq<char>,
    ip: IpAddr,
    clock: Clock,
    other: Seq<char>,
    other_ip: IpAddr,
) -> bool {
    ||| clock.epoch_secs - state.last_compact_epoch_secs >= 60
    ||| other == user && (state.home(user, other_ip) == state.home(user, ip)
        || !state.drained().is_active(user, ip))
}

/// An attempt that succeeds leaves its pair as last seen at the moment of the
/// attempt, whether the pair had a session before or not. Of all other pairs,
/// and of its own if it is refused, no sighting is made or changed, and only
/// what has left the window can be forgotten.
pub proof fn lemma_admission_sightings(
    state: TrackerView,
    user: Seq<char>,
    ip: IpAddr,
    clock: Clock,
    other: Seq<char>,
    other_ip: IpAddr,
)
    requires
        state.sound(),
    ensures
        ({
            let (after, refusal) = state.admission(user, ip, clock);
            let before = last_seen(state, other, other_ip);
            let now = clock.instant_nanos;
            if refusal is None && (other, other_ip) == (user, ip) {
                last_seen(after, other, other_ip) == Some(now)
            } else {
                match before {
                    None => last_seen(after, other, other_ip) is None,
                    Some(seen) => {
                        ||| last_seen(after, other, other_ip) == Some(seen)
                        ||| last_seen(after, other, other_ip) is None && !within(
                            seen,
                            now,
                            state.window_secs,
                        )
                    },
                }
            }
        }),
        ({
            let after = state.admission(user, ip, clock).0;
            (state.admission(user, ip, clock).1 is Some || (other, other_ip) != (user, ip)) ==> (
            last_seen(after, other, other_ip) != last_seen(state, other, other_ip)
                <==> looked_through(state, user, ip, clock, other, other_ip) && (last_seen(
                state,
                other,
                other_ip,
            ) matches Some(seen) && !within(seen, clock.instant_nanos, state.window_secs)))
        }),
{
    let now = clock.instant_nanos;
    lemma_drained_sound(state);
    let drained = state.drained();
    lemma_drain_keeps_sightings(state, other, other_ip);
    lemma_compaction_sightings(drained, clock, other, other_ip);
    let compacted = drained.compacted(clock);
    lemma_compacted_sound(drained, clock);
    lemma_home_in_range(compacted, user, ip);
    lemma_home_in_range(compacted, other, other_ip);
    lemma_home_in_range(state, user, ip);
    lemma_home_in_range(state, other, other_ip);
    lemma_prepared_sound(state, user, ip, clock);
    lemma_prepared_keeps_sessions(state, user, ip, clock, user, ip);
    lemma_drained_recents(state);
    let ready = state.prepared(user, ip, clock);
    let h = ready.home(user, ip);
    let o = ready.home(other, other_ip);
    assert(ready.shards[h] == compacted.shards[h].touched(user, now, compacted.window_secs));
    assert(o != h ==> ready.shards[o] == compacted.shards[o]);
    if !ready.is_active(user, ip) {
        let settled = ready.pruned(user, now);
        assert(settled.shards[o] == ready.shards[o].pruned(user, now, ready.window_secs));
    }
}

/// From the moment of an attempt on, its own address is recent after success for
/// as long as the window lasts, counted from that moment. Every other address of
/// every user, and its own after a refusal, is recent exactly when it would have
/// been without the attempt.
pub proof fn lemma_admission_fresh(
    state: TrackerView,
    user: Seq<char>,
    ip: IpAddr,
    clock: Clock,
    other: Seq<char>,
    other_ip: IpAddr,
    later: u64,
)
    requires
        state.sound(),
        later >= clock.instant_nanos,
    ensures
        state.admission(user, ip, clock).0.fresh_ips(other, later).contains(other_ip) <==> if (
        state.admission(user, ip, clock).1 is None && (other, other_ip) == (user, ip)) {
            within(clock.instant_nanos, later, state.window_secs)
        } else {
            state.fresh_ips(other, later).contains(other_ip)
        },
{
    lemma_admission_sightings(state, user, ip, clock, other, other_ip);
    lemma_fresh_is_seen_within_window(
        state.admission(user, ip, clock).0,
        other,
        other_ip,
        later,
    );
    lemma_fresh_is_seen_within_window(state, other, other_ip, later);
}

/// The end of a session makes and changes no sighting and forgets none that is
/// still within the window.
pub proof fn lemma_departure_sightings(
    state: TrackerView,
    user: Seq<char>,
    ip: IpAddr,
    clock: Clock,
    other: Seq<char>,
    other_ip: IpAddr,
)
    requires
        state.sound(),
    ensures
        last_seen(state.departure(user, ip, clock), other, other_ip) == match last_seen(
            state,
            other,
            other_ip,
        ) {
            Some(seen) => if clock.epoch_secs - state.last_compact_epoch_secs >= 60 && !within(
                seen,
                clock.instant_nanos,
                state.window_secs,
            ) {
                None
            } else {
                Some(seen)
            },
            None => None,
        },
{
    let ready = state.compacted(clock);
    lemma_compacted_sound(state, clock);
    lemma_compaction_sightings(state, clock, other, other_ip);
    lemma_home_in_range(ready, user, ip);
    lemma_home_in_range(ready, other, other_ip);
    let after = state.departure(user, ip, clock);
    assert(after.shards[ready.home(other, other_ip)].recent == ready.shards[ready.home(
        other,
        other_ip,
    )].recent);
}

/// From the moment on at which a session ends, every user is recent from the
/// same addresses as if it had not ended.
pub proof fn lemma_departure_fresh(
    state: TrackerView,
    user: Seq<char>,
    ip: IpAddr,
    clock: Clock,
    other: Seq<char>,
    later: u64,
)
    requires
        state.sound(),
        later >= clock.instant_nanos,
    ensures
        state.departure(user, ip, clock).fresh_ips(other, later) == state.fresh_ips(other, later),
{
    assert forall|a: IpAddr|
        state.departure(user, ip, clock).fresh_ips(other, later).contains(a) == state.fresh_ips(
            other,
            later,
        ).contains(a) by {
        lemma_departure_sightings(state, user, ip, clock, other, a);
        lemma_fresh_is_seen_within_window(
            state.departure(user, ip, clock),
            other,
            a,
            later,
        );
        lemma_fresh_is_seen_within_window(state, other, a, later);
    }
    assert(state.departure(user, ip, clock).fresh_ips(other, later) =~= state.fresh_ips(
        other,
        later,
    ));
}

/// From the moment of a pass of maintenance on, every user is recent from the
/// same addresses as without it.
pub proof fn lemma_maintenance_fresh(
    state: TrackerView,
    clock: Clock,
    user: Seq<char>,
    later: u64,
)
    requires
        state.sound(),
        later >= clock.instant_nanos,
    ensures
        state.drained().compacted(clock).fresh_ips(user, later) == state.fresh_ips(user, later),
        state.compacted(clock).fresh_ips(user, later) == state.fresh_ips(user, later),
        state.drained().fresh_ips(user, later) == state.fresh_ips(user, later),
{
    lemma_drained_sound(state);
    let drained = state.drained();
    assert forall|a: IpAddr| {
        &&& drained.compacted(clock).fresh_ips(user, later).contains(a) == state.fresh_ips(
            user,
            later,
        ).contains(a)
        &&& state.compacted(clock).fresh_ips(user, later).contains(a) == state.fresh_ips(
            user,
            later,
        ).contains(a)
        &&& drained.fresh_ips(user, later).contains(a) == state.fresh_ips(user, later).contains(a)
    } by {
        lemma_drain_keeps_sightings(state, user, a);
        lemma_compaction_sightings(drained, clock, user, a);
        lemma_compaction_sightings(state, clock, user, a);
        lemma_fresh_is_seen_within_window(state, user, a, later);
        lemma_fresh_is_seen_within_window(drained, user, a, later);
        lemma_fresh_is_seen_within_window(state.compacted(clock), user, a, later);
        lemma_fresh_is_seen_within_window(drained.compacted(clock), user, a, later);
    }
    assert(drained.compacted(clock).fresh_ips(user, later) =~= state.fresh_ips(user, later));
    assert(state.compacted(clock).fresh_ips(user, later) =~= state.fresh_ips(user, later));
    assert(drained.fresh_ips(user, later) =~= state.fresh_ips(user, later));
}

/// Clearing a user forgets all sightings of that user and none of another.
pub proof fn lemma_cleared_sightings(
    state: TrackerView,
    user: Seq<char>,
    other: Seq<char>,
    ip: IpAddr,
)
    requires
        state.sound(),
    ensures
        last_seen(state.without_user(user), other, ip) == if other == user {
            None
        } else {
            last_seen(state, other, ip)
        },
        last_seen(state.cleared(), other, ip) is None,
{
    lemma_home_in_range(state, other, ip);
}

/// Whether nothing is on record as seen after `now`.
pub open spec fn seen_by(state: TrackerView, now: u64) -> bool {
    forall|user: Seq<char>, ip: IpAddr|
        (#[trigger] last_seen(state, user, ip)) matches Some(seen) ==> seen <= now
}

/// As long as the clock does not go back, nothing is on record as seen in the
/// future.
pub proof fn lemma_no_future_sightings(
    state: TrackerView,
    user: Seq<char>,
    ip: IpAddr,
    clock: Clock,
    before: u64,
)
    requires
        state.sound(),
        seen_by(state, before),
        before <= clock.instant_nanos,
    ensures
        seen_by(state.admission(user, ip, clock).0, clock.instant_nanos),
        seen_by(state.departure(user, ip, clock), clock.instant_nanos),
        seen_by(state.drained().compacted(clock), clock.instant_nanos),
        seen_by(state.drained(), before),
{
    lemma_drained_sound(state);
    assert forall|u: Seq<char>, a: IpAddr|
        #![trigger last_seen(state.drained(), u, a)]
        (last_seen(state.drained(), u, a) matches Some(seen) ==> seen <= before) by {
        lemma_drain_keeps_sightings(state, u, a);
    }
    let now = clock.instant_nanos;
    let added = state.admission(user, ip, clock).0;
    assert forall|u: Seq<char>, a: IpAddr|
        #![trigger last_seen(added, u, a)]
        (last_seen(added, u, a) matches Some(seen) ==> seen <= now) by {
        lemma_admission_sightings(state, user, ip, clock, u, a);
        assert(last_seen(state, u, a) matches Some(seen) ==> seen <= before);
    }
    let left = state.departure(user, ip, clock);
    assert forall|u: Seq<char>, a: IpAddr|
        #![trigger last_seen(left, u, a)]
        (last_seen(left, u, a) matches Some(seen) ==> seen <= now) by {
        lemma_departure_sightings(state, user, ip, clock, u, a);
        assert(last_seen(state, u, a) matches Some(seen) ==> seen <= before);
    }
    let kept = state.drained().compacted(clock);
    assert forall|u: Seq<char>, a: IpAddr|
        #![trigger last_seen(kept, u, a)]
        (last_seen(kept, u, a) matches Some(seen) ==> seen <= now) by {
        lemma_compaction_sightings(state.drained(), clock, u, a);
        lemma_drain_keeps_sightings(state, u, a);
        assert(last_seen(state, u, a) matches Some(seen) ==> seen <= before);
    }
}

/// What is on record was seen no later than the clocks were last read, if every
/// session is opened and closed, and all maintenance is done, at a new reading.
pub proof fn lemma_readings_cover_sightings(
    state: TrackerView,
    user: Seq<char>,
    ip: IpAddr,
    before: Seq<Clock>,
    after: Seq<Clock>,
)
    requires
        state.sound(),
        seen_by(state, latest_nanos(before)),
        one_more_reading(before, after),
    ensures
        seen_by(state.admission(user, ip, after.last()).0, after.last().instant_nanos),
        seen_by(state.departure(user, ip, after.last()), after.last().instant_nanos),
        seen_by(state.drained().compacted(after.last()), after.last().instant_nanos),
        after.last().instant_nanos == latest_nanos(after),
{
    lemma_no_future_sightings(state, user, ip, after.last(), latest_nanos(before));
}

/// Where one recent address is allowed, the address of a session that was opened
/// keeps every other one out for as long as the window lasts, whether it was the
/// first session of its pair or not and whether it has ended meanwhile or not.
/// Only an address that was recent itself may come.
pub proof fn lemma_one_recent_address_blocks_others(
    state: TrackerView,
    user: Seq<char>,
    ip: IpAddr,
    opened: Clock,
    closed: Clock,
    other_ip: IpAddr,
    attempt: Clock,
)
    requires
        state.sound(),
        state.mode == UserMaxUniqueIpsMode::TimeWindow,
        state.limit_of(user) == Some(1usize),
        state.admission(user, ip, opened).1 is None,
        opened.instant_nanos <= closed.instant_nanos <= attempt.instant_nanos,
        within(opened.instant_nanos, attempt.instant_nanos, state.window_secs),
        other_ip != ip,
        !state.fresh_ips(user, attempt.instant_nanos).contains(other_ip),
    ensures
        ({
            let closed_state = state.admission(user, ip, opened).0.departure(user, ip, closed);
            !closed_state.drained().is_active(user, other_ip) ==> (closed_state.admission(
                user,
                other_ip,
                attempt,
            ).1 matches Some(refusal) && refusal is UserLimit)
        }),
        ({
            let open_state = state.admission(user, ip, opened).0;
            !open_state.drained().is_active(user, other_ip) ==> (open_state.admission(
                user,
                other_ip,
                attempt,
            ).1 matches Some(refusal) && refusal is UserLimit)
        }),
{
    let open_state = state.admission(user, ip, opened).0;
    let closed_state = open_state.departure(user, ip, closed);
    let now = attempt.instant_nanos;
    lemma_admission_sound(state, user, ip, opened);
    lemma_departure_sound(open_state, user, ip, closed);
    lemma_admission_fresh(state, user, ip, opened, user, ip, now);
    lemma_admission_fresh(state, user, ip, opened, user, other_ip, now);
    lemma_departure_fresh(open_state, user, ip, closed, user, now);
    lemma_fresh_total_counts_addresses(open_state, user, now);
    lemma_fresh_total_counts_addresses(closed_state, user, now);
    assert(open_state.fresh_ips(user, now).contains(ip));
    assert(open_state.fresh_ips(user, now).len() >= 1) by {
        if open_state.fresh_ips(user, now).len() == 0 {
            assert(open_state.fresh_ips(user, now) =~= Set::empty());
        }
    }
    assert(open_state.limit_of(user) == state.limit_of(user));
    assert(closed_state.limit_of(user) == state.limit_of(user));
    if !closed_state.drained().is_active(user, other_ip) {
        lemma_limit_refusal(closed_state, user, other_ip, attempt);
    }
    if !open_state.drained().is_active(user, other_ip) {
        lemma_limit_refusal(open_state, user, other_ip, attempt);
    }
}

} // verus!

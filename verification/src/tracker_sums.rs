//! Facts about sums over shards, and about what slot operations keep.

use vstd::prelude::*;

use crate::ip::IpAddr;
use crate::ip_shard::{home_shard, SlotView};
use crate::ip_table::IpTableView;
use crate::tracker_model::{
    active_size, recent_size, slot_orderly, sum_over, user_active_size, user_fresh_size,
    user_recent_size, TrackerView,
};

verus! {

pub proof fn lemma_sum_take(shards: Seq<SlotView>, i: int, size: spec_fn(SlotView) -> nat)
    requires
        0 <= i < shards.len(),
    ensures
        sum_over(shards.take(i + 1), size) == sum_over(shards.take(i), size) + size(shards[i]),
{
    assert(shards.take(i + 1).drop_last() =~= shards.take(i));
    assert(shards.take(i + 1).last() == shards[i]);
}

pub proof fn lemma_sum_update(
    shards: Seq<SlotView>,
    i: int,
    slot: SlotView,
    size: spec_fn(SlotView) -> nat,
)
    requires
        0 <= i < shards.len(),
    ensures
        sum_over(shards.update(i, slot), size) == sum_over(shards, size) - size(shards[i]) + size(
            slot,
        ),
    decreases shards.len(),
{
    let after = shards.update(i, slot);
    if i == shards.len() - 1 {
        assert(after.drop_last() =~= shards.drop_last());
    } else {
        lemma_sum_update(shards.drop_last(), i, slot, size);
        assert(after.drop_last() =~= shards.drop_last().update(i, slot));
        assert(after.last() == shards.last());
    }
}

/// A pointwise smaller quantity has a smaller sum.
pub proof fn lemma_sum_le(
    a: Seq<SlotView>,
    b: Seq<SlotView>,
    f: spec_fn(SlotView) -> nat,
    g: spec_fn(SlotView) -> nat,
)
    requires
        a.len() == b.len(),
        forall|i: int| 0 <= i < a.len() ==> f(#[trigger] a[i]) <= g(b[i]),
    ensures
        sum_over(a, f) <= sum_over(b, g),
    decreases a.len(),
{
    if a.len() > 0 {
        assert(f(a[a.len() - 1]) <= g(b[b.len() - 1]));
        assert forall|i: int| 0 <= i < a.drop_last().len() implies f(#[trigger] a.drop_last()[i])
            <= g(b.drop_last()[i]) by {
            assert(f(a[i]) <= g(b[i]));
        }
        lemma_sum_le(a.drop_last(), b.drop_last(), f, g);
    }
}

pub proof fn lemma_sum_member(shards: Seq<SlotView>, i: int, size: spec_fn(SlotView) -> nat)
    requires
        0 <= i < shards.len(),
    ensures
        size(shards[i]) <= sum_over(shards, size),
    decreases shards.len(),
{
    if i < shards.len() - 1 {
        lemma_sum_member(shards.drop_last(), i, size);
    }
}

/// A sum of a prefix is no larger than the whole.
pub proof fn lemma_sum_prefix(shards: Seq<SlotView>, k: int, size: spec_fn(SlotView) -> nat)
    requires
        0 <= k <= shards.len(),
    ensures
        sum_over(shards.take(k), size) <= sum_over(shards, size),
    decreases shards.len(),
{
    if k == shards.len() {
        assert(shards.take(k) =~= shards);
    } else {
        lemma_sum_prefix(shards.drop_last(), k, size);
        assert(shards.drop_last().take(k) =~= shards.take(k));
    }
}

pub proof fn lemma_sum_zero(shards: Seq<SlotView>, size: spec_fn(SlotView) -> nat)
    requires
        forall|i: int| 0 <= i < shards.len() ==> size(#[trigger] shards[i]) == 0,
    ensures
        sum_over(shards, size) == 0,
    decreases shards.len(),
{
    if shards.len() > 0 {
        assert(size(shards[shards.len() - 1]) == 0);
        assert forall|i: int| 0 <= i < shards.drop_last().len() implies size(
            #[trigger] shards.drop_last()[i],
        ) == 0 by {
            assert(size(shards[i]) == 0);
        }
        lemma_sum_zero(shards.drop_last(), size);
    }
}

/// The addresses of one user are no more than all entries.
pub proof fn lemma_user_ips_bounded<V>(table: IpTableView<V>, user: Seq<char>)
    requires
        table.sound(),
    ensures
        table.user_ips(user).finite(),
        table.user_ips(user).len() <= table.entries.len(),
{
    let pairs = table.entries.dom().filter(|key: (Seq<char>, IpAddr)| key.0 == user);
    assert(pairs.finite());
    vstd::set_lib::lemma_len_subset(pairs, table.entries.dom());
    let second = |key: (Seq<char>, IpAddr)| key.1;
    assert(table.user_ips(user) =~= pairs.map(second)) by {
        assert forall|ip: IpAddr| #[trigger] table.user_ips(user).contains(ip) implies pairs.map(
            second,
        ).contains(ip) by {
            assert(pairs.contains((user, ip)));
            assert(second((user, ip)) == ip);
        }
    }
    pairs.lemma_map_finite(second);
    vstd::set_lib::lemma_map_size_bound(pairs, pairs.map(second), second);
}

/// The per-user totals are bounded by the overall totals.
pub proof fn lemma_user_totals_bounded(shards: Seq<SlotView>, user: Seq<char>)
    requires
        forall|i: int| 0 <= i < shards.len() ==> (#[trigger] shards[i]).sound(),
    ensures
        sum_over(shards, user_active_size(user)) <= sum_over(shards, active_size()),
        sum_over(shards, user_recent_size(user)) <= sum_over(shards, recent_size()),
{
    assert forall|i: int| 0 <= i < shards.len() implies user_active_size(user)(#[trigger] shards[i])
        <= active_size()(shards[i]) by {
        lemma_user_ips_bounded(shards[i].active, user);
    }
    lemma_sum_le(shards, shards, user_active_size(user), active_size());
    assert forall|i: int| 0 <= i < shards.len() implies user_recent_size(user)(#[trigger] shards[i])
        <= recent_size()(shards[i]) by {
        lemma_user_ips_bounded(shards[i].recent, user);
    }
    lemma_sum_le(shards, shards, user_recent_size(user), recent_size());
}

/// What is within the window is part of what is recent.
pub proof fn lemma_fresh_total_bounded(state: TrackerView, user: Seq<char>, now: u64)
    requires
        state.sound(),
    ensures
        state.user_fresh_total(user, now) <= state.user_recent_total(user),
        state.user_fresh_total(user, now) <= state.recent_total(),
{
    let shards = state.shards;
    let fresh = user_fresh_size(user, now, state.window_secs);
    assert forall|i: int| 0 <= i < shards.len() implies fresh(#[trigger] shards[i])
        <= user_recent_size(user)(shards[i]) by {
        lemma_user_ips_bounded(shards[i].recent, user);
        vstd::set_lib::lemma_len_subset(
            shards[i].recent.fresh_ips(user, now, state.window_secs),
            shards[i].recent.user_ips(user),
        );
    }
    lemma_sum_le(shards, shards, fresh, user_recent_size(user));
    lemma_user_totals_bounded(shards, user);
}

/// Releases keep a shard sound and its pairs its own.
pub proof fn lemma_released_keeps(
    slot: SlotView,
    user: Seq<char>,
    ip: IpAddr,
    pending: usize,
    index: int,
    mask: usize,
)
    requires
        slot.sound(),
        slot_orderly(slot, index, mask),
    ensures
        slot.released(user, ip, pending).sound(),
        slot_orderly(slot.released(user, ip, pending), index, mask),
        slot.released(user, ip, pending).active.entries.len() <= slot.active.entries.len(),
{
    let after = slot.released(user, ip, pending);
    assert(after.active.entries.dom().finite());
    assert forall|u: Seq<char>, a: IpAddr| #[trigger]
        after.active.entries.contains_key((u, a)) implies slot.active.entries.contains_key((u, a))
        && after.active.users.contains(u) by {
        assert(slot.active.entries.contains_key((u, a)));
    }
}

pub proof fn lemma_touched_keeps(
    slot: SlotView,
    user: Seq<char>,
    now: u64,
    window_secs: u64,
    index: int,
    mask: usize,
)
    requires
        slot.sound(),
        slot_orderly(slot, index, mask),
    ensures
        slot.touched(user, now, window_secs).sound(),
        slot_orderly(slot.touched(user, now, window_secs), index, mask),
        slot.touched(user, now, window_secs).recent.entries.len() <= slot.recent.entries.len(),
{
    let after = slot.touched(user, now, window_secs);
    assert(after.recent.entries.dom().subset_of(slot.recent.entries.dom()));
    vstd::set_lib::lemma_len_subset(after.recent.entries.dom(), slot.recent.entries.dom());
    assert forall|u: Seq<char>, a: IpAddr| #[trigger]
        after.active.entries.contains_key((u, a)) implies after.active.users.contains(u) by {
        assert(slot.active.entries.contains_key((u, a)));
    }
    assert forall|u: Seq<char>, a: IpAddr| #[trigger]
        after.recent.entries.contains_key((u, a)) implies slot.recent.entries.contains_key((u, a)) by {
    }
}

pub proof fn lemma_pruned_keeps(
    slot: SlotView,
    user: Seq<char>,
    now: u64,
    window_secs: u64,
    index: int,
    mask: usize,
)
    requires
        slot.sound(),
        slot_orderly(slot, index, mask),
    ensures
        slot.pruned(user, now, window_secs).sound(),
        slot_orderly(slot.pruned(user, now, window_secs), index, mask),
        slot.pruned(user, now, window_secs).recent.entries.len() <= slot.recent.entries.len(),
{
    let after = slot.pruned(user, now, window_secs);
    assert(after.recent.entries.dom().subset_of(slot.recent.entries.dom()));
    vstd::set_lib::lemma_len_subset(after.recent.entries.dom(), slot.recent.entries.dom());
    assert forall|u: Seq<char>, a: IpAddr| #[trigger]
        after.recent.entries.contains_key((u, a)) implies slot.recent.entries.contains_key((u, a)) by {
    }
}

pub proof fn lemma_compacted_keeps(
    slot: SlotView,
    now: u64,
    window_secs: u64,
    index: int,
    mask: usize,
)
    requires
        slot.sound(),
        slot_orderly(slot, index, mask),
    ensures
        slot.compacted(now, window_secs).sound(),
        slot_orderly(slot.compacted(now, window_secs), index, mask),
        slot.compacted(now, window_secs).recent.entries.len() <= slot.recent.entries.len(),
        slot.compacted(now, window_secs).active.entries == slot.active.entries,
{
    let after = slot.compacted(now, window_secs);
    let kept = SlotView { recent: slot.recent.pruned(None, now, window_secs), ..slot };
    assert(after.recent.entries.dom().subset_of(slot.recent.entries.dom()));
    vstd::set_lib::lemma_len_subset(after.recent.entries.dom(), slot.recent.entries.dom());
    assert forall|u: Seq<char>, a: IpAddr| #[trigger]
        after.active.entries.contains_key((u, a)) implies after.active.users.contains(u) by {
        assert(slot.active.entries.contains_key((u, a)));
        assert(kept.active.owns_any(u));
    }
    assert forall|u: Seq<char>, a: IpAddr| #[trigger]
        after.recent.entries.contains_key((u, a)) implies after.recent.users.contains(u)
        && slot.recent.entries.contains_key((u, a)) by {
        assert(slot.recent.entries.contains_key((u, a)));
        assert(kept.recent.entries.contains_key((u, a)));
        assert(kept.recent.owns_any(u));
    }
}

pub proof fn lemma_without_user_keeps(slot: SlotView, user: Seq<char>, index: int, mask: usize)
    requires
        slot.sound(),
        slot_orderly(slot, index, mask),
    ensures
        slot.without_user(user).sound(),
        slot_orderly(slot.without_user(user), index, mask),
        slot.without_user(user).active.entries.len() <= slot.active.entries.len(),
        slot.without_user(user).recent.entries.len() <= slot.recent.entries.len(),
{
    let after = slot.without_user(user);
    assert(after.active.entries.dom().subset_of(slot.active.entries.dom()));
    assert(after.recent.entries.dom().subset_of(slot.recent.entries.dom()));
    vstd::set_lib::lemma_len_subset(after.active.entries.dom(), slot.active.entries.dom());
    vstd::set_lib::lemma_len_subset(after.recent.entries.dom(), slot.recent.entries.dom());
    assert forall|u: Seq<char>, a: IpAddr| #[trigger]
        after.active.entries.contains_key((u, a)) implies after.active.users.contains(u)
        && slot.active.entries.contains_key((u, a)) by {
    }
    assert forall|u: Seq<char>, a: IpAddr| #[trigger]
        after.recent.entries.contains_key((u, a)) implies after.recent.users.contains(u)
        && slot.recent.entries.contains_key((u, a)) by {
    }
}

/// Admissions at the home shard keep it sound and its pairs its own.
pub proof fn lemma_admitted_keeps(
    slot: SlotView,
    user: Seq<char>,
    ip: IpAddr,
    sessions: usize,
    now: u64,
    mask: usize,
)
    requires
        slot.sound(),
        slot_orderly(slot, home_shard(user, ip, mask) as int, mask),
        sessions >= 1,
    ensures
        slot.admitted(user, ip, sessions, now).sound(),
        slot_orderly(
            slot.admitted(user, ip, sessions, now),
            home_shard(user, ip, mask) as int,
            mask,
        ),
{
    let after = slot.admitted(user, ip, sessions, now);
    assert forall|u: Seq<char>, a: IpAddr| #[trigger]
        after.active.entries.contains_key((u, a)) implies after.active.users.contains(u)
        && home_shard(u, a, mask) == home_shard(user, ip, mask) by {
        if (u, a) != (user, ip) {
            assert(slot.active.entries.contains_key((u, a)));
        }
    }
    assert forall|u: Seq<char>, a: IpAddr| #[trigger]
        after.recent.entries.contains_key((u, a)) implies after.recent.users.contains(u)
        && home_shard(u, a, mask) == home_shard(user, ip, mask) by {
        if (u, a) != (user, ip) {
            assert(slot.recent.entries.contains_key((u, a)));
        }
    }
}

} // verus!

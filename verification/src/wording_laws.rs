//! The texts that are shown.

use vstd::prelude::*;
use vstd::string::*;

use crate::admission_laws::lemma_stats_rows;
use crate::ip::IpAddr;
use crate::ip_format::ip_text;
use crate::me_init::retry_limit_words;
use crate::startup_actions::{Note, Stage};
use crate::text::numeral;
use crate::tracker_laws::{
    ended_sessions, lemma_active_pairs_have_sessions, lemma_drained_sound,
    lemma_drains_end_queued_sessions, lemma_empty_drain, lemma_short_queue_is_emptied,
};
use crate::tracker_model::{Refusal, TrackerView, UserMaxUniqueIpsMode};
use crate::tracker_report::{
    ip_lines, padded, report_fits, report_text, user_line, user_lines,
};

verus! {

/// What a refusal tells the user: the figures that decided it, each against the
/// limit, or the number of entries against the cap.
pub proof fn lemma_refusal_wording(
    user: Seq<char>,
    active: usize,
    recent: usize,
    limit: usize,
    mode: UserMaxUniqueIpsMode,
    entries: u64,
)
    ensures
        (Refusal::UserLimit { active, recent, limit, mode }).text(user)
            == "IP limit reached for user '"@ + user + "': active="@ + numeral(active as nat, 10)
            + "/"@ + numeral(limit as nat, 10) + " recent="@ + numeral(recent as nat, 10) + "/"@
            + numeral(limit as nat, 10) + " mode="@ + (match mode {
            UserMaxUniqueIpsMode::ActiveWindow => "ActiveWindow"@,
            UserMaxUniqueIpsMode::TimeWindow => "TimeWindow"@,
            UserMaxUniqueIpsMode::Combined => "Combined"@,
        }),
        (Refusal::ActiveCap { entries }).text(user)
            == "IP tracker active entry cap reached: entries="@ + numeral(entries as nat, 10)
            + "/"@ + numeral(131_072, 10),
        (Refusal::RecentCap { entries }).text(user)
            == "IP tracker recent entry cap reached: entries="@ + numeral(entries as nat, 10)
            + "/"@ + numeral(262_144, 10),
{
}

/// What is noted about the components of start-up.
pub proof fn lemma_note_wording(shards: usize)
    ensures
        Note::SecretLoaded.words() == "proxy-secret loaded"@,
        Note::SecretUnavailable.words() == "proxy-secret unavailable"@,
        Note::LoadingV4.words() == "load startup proxy-config v4"@,
        Note::V4Loaded.words() == "proxy-config v4 loaded"@,
        Note::V4Unavailable.words() == "proxy-config v4 unavailable"@,
        Note::LoadingV6.words() == "load startup proxy-config v6"@,
        Note::V6Loaded.words() == "proxy-config v6 loaded"@,
        Note::V6Unavailable.words() == "proxy-config v6 unavailable"@,
        Note::ConfigsIncomplete.words() == "ME configs are incomplete"@,
        Note::Constructing.words() == "construct ME pool"@,
        (Note::PoolsCreated { shards }).words() == "ME pool object created ("@ + numeral(
            shards as nat,
            10,
        ) + " shards)"@,
        Note::InitializingWriters.words() == "initialize ME pool writers"@,
        Note::Initialized.words() == "ME pool initialized"@,
        Note::RetryBudgetExhausted.words() == "ME init retry budget exhausted"@,
        Stage::BackgroundInit.words() == Some("background_init"@),
        Stage::Ready.words() == Some("ready"@),
        Stage::Failed.words() == Some("failed"@),
{
}

/// How a bound on attempts is written.
pub proof fn lemma_retry_limit_wording(attempts: u32)
    ensures
        retry_limit_words(attempts) == if attempts > 0 {
            numeral(attempts as nat, 10)
        } else {
            "unlimited"@
        },
{
}

/// A name takes at least twenty columns: it comes first, and blanks follow.
pub proof fn lemma_padding(name: Seq<char>)
    ensures
        padded(name).len() == if name.len() < 20 {
            20
        } else {
            name.len()
        },
        padded(name).take(name.len() as int) == name,
        forall|i: int| name.len() <= i < padded(name).len() ==> #[trigger] padded(name)[i] == ' ',
{
    assert(padded(name).take(name.len() as int) =~= name);
}

/// The line about a user gives the name, the number of addresses and the limit.
pub proof fn lemma_line_wording(name: Seq<char>, active: usize, limit: usize)
    ensures
        user_line((name, active, limit)) == "User: "@ + padded(name) + " Active IPs: "@ + numeral(
            active as nat,
            10,
        ) + "/"@ + (if limit > 0 {
            numeral(limit as nat, 10)
        } else {
            "unlimited"@
        }) + "\n"@,
{
}

/// There is a line for each address, in order.
pub proof fn lemma_address_lines(before: Seq<IpAddr>, ip: IpAddr, after: Seq<IpAddr>)
    ensures
        ip_lines(before + seq![ip] + after) == ip_lines(before) + ("  - "@ + ip_text(ip) + "\n"@)
            + ip_lines(after),
        ip_lines(Seq::empty()) == Seq::<char>::empty(),
    decreases after.len(),
{
    let all = before + seq![ip] + after;
    let line = "  - "@ + ip_text(ip) + "\n"@;
    if after.len() == 0 {
        assert(all.drop_last() =~= before);
        assert(all.last() == ip);
    } else {
        lemma_address_lines(before, ip, after.drop_last());
        assert(all.drop_last() =~= before + seq![ip] + after.drop_last());
        assert(all.last() == after.last());
    }
    assert(ip_lines(all) =~= ip_lines(before) + line + ip_lines(after));
}

/// The text is a heading, and for each user in order its line and the lines about
/// its addresses; without users it says so.
pub proof fn lemma_report_wording(
    rows: Seq<(Seq<char>, usize, usize)>,
    lists: Seq<Seq<IpAddr>>,
    k: int,
)
    requires
        lists.len() == rows.len(),
        0 <= k < rows.len(),
    ensures
        user_lines(rows, lists) == user_lines(rows.take(k), lists.take(k)) + user_line(rows[k])
            + ip_lines(lists[k]) + user_lines(rows.skip(k + 1), lists.skip(k + 1)),
        user_lines(Seq::empty(), Seq::empty()) == Seq::<char>::empty(),
        report_text(rows, lists) == "User IP Statistics:\n"@ + "==================\n"@
            + user_lines(rows, lists),
        report_text(Seq::empty(), Seq::empty()) == "No active users"@,
    decreases rows.len(),
{
    let n = rows.len() - 1;
    let fewer = rows.drop_last();
    let shorter = lists.drop_last();
    lemma_same_lists(fewer, lists, shorter);
    if k == n {
        assert(rows.take(k) =~= fewer);
        assert(lists.take(k) =~= shorter);
        assert(rows.skip(k + 1) =~= Seq::empty());
        assert(lists.skip(k + 1) =~= Seq::empty());
        assert(user_lines(rows.skip(k + 1), lists.skip(k + 1)) =~= Seq::empty());
    } else {
        lemma_report_wording(fewer, shorter, k);
        assert(fewer.take(k) =~= rows.take(k));
        assert(shorter.take(k) =~= lists.take(k));
        let rest = rows.skip(k + 1);
        let rest_lists = lists.skip(k + 1);
        assert(rest.drop_last() =~= fewer.skip(k + 1));
        assert(rest.last() == rows.last());
        assert(rest_lists.drop_last() =~= shorter.skip(k + 1));
        assert(rest_lists[rest.len() - 1] == lists[n]);
        lemma_same_lists(rest.drop_last(), rest_lists, rest_lists.drop_last());
    }
    assert(user_lines(rows, lists) =~= user_lines(rows.take(k), lists.take(k)) + user_line(rows[k])
        + ip_lines(lists[k]) + user_lines(rows.skip(k + 1), lists.skip(k + 1)));
}

proof fn lemma_same_lists(
    rows: Seq<(Seq<char>, usize, usize)>,
    a: Seq<Seq<IpAddr>>,
    b: Seq<Seq<IpAddr>>,
)
    requires
        rows.len() <= a.len(),
        rows.len() <= b.len(),
        forall|i: int| 0 <= i < rows.len() ==> #[trigger] a[i] == b[i],
    ensures
        user_lines(rows, a) == user_lines(rows, b),
    decreases rows.len(),
{
    if rows.len() > 0 {
        lemma_same_lists(rows.drop_last(), a, b);
        assert(a[rows.len() - 1] == b[rows.len() - 1]);
    }
}

proof fn lemma_later_drains(state: TrackerView, n: nat)
    requires
        state.queue.len() <= 1024,
        n >= 1,
    ensures
        state.drains(n) == state.drained(),
    decreases n,
{
    lemma_short_queue_is_emptied(state);
    if n == 1 {
        reveal_with_fuel(TrackerView::drains, 2);
    } else {
        lemma_later_drains(state, (n - 1) as nat);
        lemma_empty_drain(state.drained());
    }
}

/// When one drain applies all that waits, the number of addresses in the line about
/// a user is the number of lines about its addresses, and these are the addresses
/// that have a session.
pub proof fn lemma_report_agrees(
    state: TrackerView,
    rows: Seq<(Seq<char>, usize, usize)>,
    lists: Seq<Seq<IpAddr>>,
    i: int,
)
    requires
        state.sound(),
        state.queue.len() <= 1024,
        report_fits(state, rows, lists),
        0 <= i < rows.len(),
    ensures
        rows[i].1 == lists[i].len(),
        forall|ip: IpAddr|
            lists[i].contains(ip) <==> #[trigger] state.drained().sessions(rows[i].0, ip) >= 1,
        lists.len() == rows.len(),
{
    lemma_later_drains(state, 1);
    lemma_later_drains(state, (i + 2) as nat);
    lemma_drained_sound(state);
    lemma_stats_rows(state.drained(), rows, i);
    lists[i].unique_seq_to_set();
    assert forall|ip: IpAddr|
        lists[i].contains(ip) <==> #[trigger] state.drained().sessions(rows[i].0, ip) >= 1 by {
        assert(lists[i].to_set().contains(ip) == lists[i].contains(ip));
        lemma_active_pairs_have_sessions(state.drained(), rows[i].0, ip);
    }
}

/// Under the line about a user stand the addresses of which more sessions were open
/// than are ended by the releases in the batches that were applied until then, one
/// batch more for each user.
pub proof fn lemma_report_lists(
    state: TrackerView,
    rows: Seq<(Seq<char>, usize, usize)>,
    lists: Seq<Seq<IpAddr>>,
    i: int,
    ip: IpAddr,
)
    requires
        state.sound(),
        report_fits(state, rows, lists),
        0 <= i < rows.len(),
    ensures
        ({
            let taken = if state.queue.len() < (i + 2) * 1024 {
                state.queue.len() as int
            } else {
                (i + 2) * 1024
            };
            lists[i].contains(ip) <==> state.sessions(rows[i].0, ip) > ended_sessions(
                state.queue.take(taken),
                rows[i].0,
                ip,
            )
        }),
        lists[i].no_duplicates(),
{
    let then = state.drains((i + 2) as nat);
    lemma_drains_end_queued_sessions(state, (i + 2) as nat, rows[i].0, ip);
    assert(lists[i].to_set() == then.active_ips(rows[i].0));
    assert(lists[i].to_set().contains(ip) == lists[i].contains(ip));
    lemma_active_pairs_have_sessions(then, rows[i].0, ip);
}

} // verus!

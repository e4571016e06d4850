//! What holds of every course of start-up.

use vstd::prelude::*;

use crate::me_init::{next_attempt, task_actions, InitRole, InitVerdict};
use crate::me_startup::{
    after_v6_actions, built_actions, expects, first_step, inline_role, shard_actions, step,
    without_secret_actions, StartupEvent, StartupPhase, StartupSettings, SECRET_RETRY_SECS,
};
use crate::startup_actions::{Component, Note, Stage, StartupAction, StartupMeStatus};

verus! {

/// Where start-up stands after the host reported `events`, and all that was
/// done until then.
pub open spec fn course(settings: StartupSettings, events: Seq<StartupEvent>) -> (
    StartupPhase,
    Seq<StartupAction>,
)
    decreases events.len(),
{
    if events.len() == 0 {
        first_step(settings)
    } else {
        let before = course(settings, events.drop_last());
        let now = step(settings, before.0, events.last());
        (now.0, before.1 + now.1)
    }
}

/// Whether the host only ever answered what was asked.
pub open spec fn possible(settings: StartupSettings, events: Seq<StartupEvent>) -> bool
    decreases events.len(),
{
    events.len() > 0 ==> possible(settings, events.drop_last()) && expects(
        course(settings, events.drop_last()).0,
        events.last(),
    )
}

/// How often a configuration was loaded.
pub open spec fn configs_loaded(events: Seq<StartupEvent>) -> nat
    decreases events.len(),
{
    if events.len() == 0 {
        0
    } else {
        configs_loaded(events.drop_last()) + if events.last() is ConfigLoaded {
            1nat
        } else {
            0nat
        }
    }
}

/// Whether the secret was fetched.
pub open spec fn secret_fetched(events: Seq<StartupEvent>) -> bool {
    events.contains(StartupEvent::SecretFetched)
}

/// Whether the pools were built.
pub open spec fn pools_built(events: Seq<StartupEvent>) -> bool {
    exists|i: int| 0 <= i < events.len() && #[trigger] events[i] is PoolsBuilt
}

/// Without the middle end nothing is done, and there are no pools.
pub proof fn lemma_disabled_startup_does_nothing(
    settings: StartupSettings,
    events: Seq<StartupEvent>,
)
    requires
        !settings.use_middle_proxy,
        possible(settings, events),
    ensures
        events.len() == 0,
        course(settings, events) == (
            StartupPhase::Finished { with_pools: false },
            Seq::<StartupAction>::empty(),
        ),
    decreases events.len(),
{
    if events.len() > 0 {
        lemma_disabled_startup_does_nothing(settings, events.drop_last());
    }
}

/// Whether the secret was fetched, both configurations were loaded and the pools
/// were built, and, unless clients may go around them, the first one was
/// initialized.
pub open spec fn have_everything(settings: StartupSettings, events: Seq<StartupEvent>) -> bool {
    &&& secret_fetched(events)
    &&& configs_loaded(events) == 2
    &&& pools_built(events)
    &&& settings.me2dc_fallback || events.last() is InitSucceeded
}

/// What each phase says about the past.
spec fn history_fits(settings: StartupSettings, events: Seq<StartupEvent>) -> bool {
    match course(settings, events).0 {
        StartupPhase::FetchingSecret => configs_loaded(events) == 0,
        StartupPhase::LoadingV4 => secret_fetched(events) && configs_loaded(events) == 0,
        StartupPhase::LoadingV6 { v4_loaded } => secret_fetched(events) && configs_loaded(events)
            == if v4_loaded {
            1nat
        } else {
            0nat
        },
        StartupPhase::Constructing => secret_fetched(events) && configs_loaded(events) == 2,
        StartupPhase::Initializing { .. } => secret_fetched(events) && configs_loaded(events) == 2
            && pools_built(events) && !settings.me2dc_fallback,
        StartupPhase::Finished { with_pools } => with_pools <==> have_everything(settings, events),
    }
}

proof fn lemma_history(settings: StartupSettings, events: Seq<StartupEvent>)
    requires
        settings.use_middle_proxy,
        possible(settings, events),
    ensures
        history_fits(settings, events),
    decreases events.len(),
{
    if events.len() > 0 {
        let past = events.drop_last();
        lemma_history(settings, past);
        assert(events =~= past.push(events.last()));
        assert(events[events.len() - 1] == events.last());
        if secret_fetched(past) {
            let i = choose|i: int| 0 <= i < past.len() && past[i] == StartupEvent::SecretFetched;
            assert(events[i] == StartupEvent::SecretFetched);
        }
        if pools_built(past) {
            let i = choose|i: int| 0 <= i < past.len() && #[trigger] past[i] is PoolsBuilt;
            assert(events[i] is PoolsBuilt);
        }
    }
}

/// Start-up ends with pools exactly when everything they need was there.
pub proof fn lemma_pools_need_everything(settings: StartupSettings, events: Seq<StartupEvent>)
    requires
        possible(settings, events),
        course(settings, events).0 is Finished,
    ensures
        course(settings, events).0->with_pools <==> settings.use_middle_proxy && have_everything(
            settings,
            events,
        ),
{
    if settings.use_middle_proxy {
        lemma_history(settings, events);
    } else {
        lemma_disabled_startup_does_nothing(settings, events);
    }
}

/// Whether it is recorded that start-up failed and that the pool is not
/// initialized.
pub open spec fn failure_recorded(actions: Seq<StartupAction>) -> bool {
    &&& actions.contains(StartupAction::SetStatus(StartupMeStatus::Failed, Stage::Failed))
    &&& exists|note: Note| #[trigger]
        actions.contains(StartupAction::Fail(Component::PoolInitStage1, note))
}

proof fn lemma_contains_later(a: Seq<StartupAction>, b: Seq<StartupAction>, action: StartupAction)
    requires
        b.contains(action),
    ensures
        (a + b).contains(action),
{
    let i = choose|i: int| 0 <= i < b.len() && b[i] == action;
    assert((a + b)[a.len() + i] == action);
}

/// When start-up ends without pools although the middle end is used, the
/// failure is on record.
pub proof fn lemma_failure_is_recorded(settings: StartupSettings, events: Seq<StartupEvent>)
    requires
        settings.use_middle_proxy,
        possible(settings, events),
        course(settings, events).0 == (StartupPhase::Finished { with_pools: false }),
    ensures
        failure_recorded(course(settings, events).1),
{
    let before = course(settings, events.drop_last());
    let now = step(settings, before.0, events.last());
    let failed = StartupAction::SetStatus(StartupMeStatus::Failed, Stage::Failed);
    match before.0 {
        StartupPhase::FetchingSecret => {
            assert(now.1 == without_secret_actions());
            assert(now.1[7] == failed);
            let fail = StartupAction::Fail(Component::PoolInitStage1, Note::SecretUnavailable);
            assert(now.1[6] == fail);
            lemma_contains_later(before.1, now.1, failed);
            lemma_contains_later(before.1, now.1, fail);
        },
        StartupPhase::LoadingV6 { v4_loaded } => {
            assert(now.1 == after_v6_actions(v4_loaded, events.last() is ConfigLoaded));
            assert(now.1[3] == failed);
            let fail = StartupAction::Fail(Component::PoolInitStage1, Note::ConfigsIncomplete);
            assert(now.1[2] == fail);
            lemma_contains_later(before.1, now.1, failed);
            lemma_contains_later(before.1, now.1, fail);
        },
        StartupPhase::Initializing { attempt } => {
            assert(now.1 == inline_role(settings).exhausted_actions(attempt));
            assert(now.1[2] == failed);
            let fail = StartupAction::Fail(Component::PoolInitStage1, Note::RetryBudgetExhausted);
            assert(now.1[1] == fail);
            lemma_contains_later(before.1, now.1, failed);
            lemma_contains_later(before.1, now.1, fail);
        },
        _ => {},
    }
}

/// What each phase waits for the host to do.
pub open spec fn question(phase: StartupPhase) -> Option<StartupAction> {
    match phase {
        StartupPhase::FetchingSecret => Some(StartupAction::FetchSecret),
        StartupPhase::LoadingV4 => Some(StartupAction::LoadConfig(Component::ProxyConfigV4)),
        StartupPhase::LoadingV6 { .. } => Some(StartupAction::LoadConfig(Component::ProxyConfigV6)),
        StartupPhase::Constructing => Some(StartupAction::BuildPools),
        StartupPhase::Initializing { .. } => Some(StartupAction::InitPool),
        StartupPhase::Finished { .. } => None,
    }
}

/// Unless start-up is over, the last thing done is what the phase waits for.
pub proof fn lemma_last_action_asks(settings: StartupSettings, events: Seq<StartupEvent>)
    requires
        possible(settings, events),
    ensures
        ({
            let now = course(settings, events);
            question(now.0) matches Some(asked) ==> now.1.len() > 0 && now.1.last() == asked
        }),
{
    if events.len() > 0 {
        let before = course(settings, events.drop_last());
        let now = step(settings, before.0, events.last());
        if let Some(asked) = question(now.0) {
            assert(now.1.len() > 0 && now.1.last() == asked);
            assert((before.1 + now.1).last() == now.1.last());
        }
    }
}

/// The phase after `k` failures of the first initialization.
pub open spec fn after_failures(settings: StartupSettings, k: nat) -> StartupPhase
    decreases k,
{
    if k == 0 {
        StartupPhase::Initializing { attempt: 1 }
    } else {
        step(settings, after_failures(settings, (k - 1) as nat), StartupEvent::InitFailed).0
    }
}

/// While start-up waits for the first pool, it puts up with fewer failures than
/// the bound says and gives up at the bound; without a bound it never gives up.
pub proof fn lemma_retry_budget(settings: StartupSettings, k: nat)
    ensures
        settings.me_init_retry_attempts == 0 || k < settings.me_init_retry_attempts
            ==> after_failures(settings, k) == (StartupPhase::Initializing {
            attempt: if k >= u32::MAX {
                u32::MAX
            } else {
                (k + 1) as u32
            },
        }),
        settings.me_init_retry_attempts > 0 && k == settings.me_init_retry_attempts
            ==> after_failures(settings, k) == (StartupPhase::Finished { with_pools: false }),
    decreases k,
{
    if k > 0 {
        lemma_retry_budget(settings, (k - 1) as nat);
    }
}

/// In the background a pool is initialized again and again until that works.
pub proof fn lemma_background_never_gives_up(role: InitRole, attempt: u32)
    requires
        role.in_background(),
    ensures
        role.verdict(attempt, false) == InitVerdict::Retry,
        role.outcome_actions(attempt, false).last() == StartupAction::InitPool,
{
}

/// Where clients may go around the pool, start-up never waits for it, and a
/// missing secret ends start-up at once.
pub proof fn lemma_fallback_never_waits(settings: StartupSettings, events: Seq<StartupEvent>)
    requires
        settings.me2dc_fallback,
        possible(settings, events),
    ensures
        !(course(settings, events).0 is Initializing),
        events.len() > 0 && events.last() is SecretUnavailable ==> course(settings, events).0 == (
        StartupPhase::Finished { with_pools: false }),
{
    if events.len() > 0 {
        if settings.use_middle_proxy {
            lemma_history(settings, events);
        } else {
            lemma_disabled_startup_does_nothing(settings, events);
        }
    }
}

/// Where clients may not go around the pool, a missing secret is fetched again
/// after a pause, however often it was missing.
pub proof fn lemma_secret_is_awaited(settings: StartupSettings, events: Seq<StartupEvent>)
    requires
        settings.use_middle_proxy,
        !settings.me2dc_fallback,
        forall|i: int| 0 <= i < events.len() ==> #[trigger] events[i] is SecretUnavailable,
    ensures
        possible(settings, events),
        course(settings, events).0 is FetchingSecret,
        events.len() > 0 ==> {
            let actions = course(settings, events).1;
            actions.len() >= 2 && actions[actions.len() - 2] == StartupAction::SleepSecs(
                SECRET_RETRY_SECS,
            )
        },
    decreases events.len(),
{
    if events.len() > 0 {
        let past = events.drop_last();
        assert forall|i: int| 0 <= i < past.len() implies #[trigger] past[i] is SecretUnavailable by {
            assert(events[i] is SecretUnavailable);
        }
        lemma_secret_is_awaited(settings, past);
        assert(events[events.len() - 1] is SecretUnavailable);
    }
}

/// Every pool but the first has exactly one supervisor of its own.
pub proof fn lemma_every_other_shard_supervised(
    settings: StartupSettings,
    shards: usize,
    idx: usize,
)
    requires
        shards >= 1,
    ensures
        built_actions(settings, shards).contains(StartupAction::SuperviseShard(idx)) <==> 1 <= idx
            < shards,
        shard_actions(shards as nat).no_duplicates(),
{
    let actions = built_actions(settings, shards);
    let supervised = shard_actions(shards as nat);
    if 1 <= idx < shards {
        assert(supervised[idx - 1] == StartupAction::SuperviseShard(idx));
        assert(actions[2 + (idx - 1)] == supervised[idx - 1]);
    }
    if actions.contains(StartupAction::SuperviseShard(idx)) {
        let i = choose|i: int|
            0 <= i < actions.len() && actions[i] == StartupAction::SuperviseShard(idx);
        assert(2 <= i < 2 + supervised.len());
        assert(actions[i] == supervised[i - 2]);
    }
}

/// Pools are made available to clients before the first one is initialized.
pub proof fn lemma_published_before_init(settings: StartupSettings, shards: usize)
    requires
        shards >= 1,
    ensures
        built_actions(settings, shards)[1] == StartupAction::PublishMux,
        forall|i: int|
            0 <= i < built_actions(settings, shards).len() && built_actions(settings, shards)[i]
                == StartupAction::InitPool ==> i > 1,
{
}

/// Pools are made available to clients only after they were built.
pub proof fn lemma_published_after_built(
    settings: StartupSettings,
    events: Seq<StartupEvent>,
    i: int,
)
    requires
        possible(settings, events),
        0 <= i < course(settings, events).1.len(),
        course(settings, events).1[i] == StartupAction::PublishMux,
    ensures
        exists|j: int|
            0 <= j < i && #[trigger] course(settings, events).1[j] == StartupAction::BuildPools,
    decreases events.len(),
{
    if events.len() > 0 {
        let past = events.drop_last();
        let before = course(settings, past);
        let now = step(settings, before.0, events.last());
        let all = course(settings, events).1;
        assert(all == before.1 + now.1);
        if i < before.1.len() {
            lemma_published_after_built(settings, past, i);
            let j = choose|j: int|
                0 <= j < i && #[trigger] before.1[j] == StartupAction::BuildPools;
            assert(all[j] == StartupAction::BuildPools);
        } else {
            assert(now.1[i - before.1.len()] == StartupAction::PublishMux);
            lemma_last_action_asks(settings, past);
            assert(before.0 is Constructing) by {
                lemma_published_when_built(settings, before.0, events.last(), i - before.1.len());
            }
            assert(all[before.1.len() - 1] == StartupAction::BuildPools);
        }
    }
}

/// Only the step that follows the building of the pools makes them available.
pub proof fn lemma_published_when_built(
    settings: StartupSettings,
    phase: StartupPhase,
    event: StartupEvent,
    k: int,
)
    requires
        expects(phase, event),
        0 <= k < step(settings, phase, event).1.len(),
    ensures
        step(settings, phase, event).1[k] == StartupAction::PublishMux ==> phase is Constructing,
{
    if let StartupPhase::Initializing { attempt } = phase {
        let role = inline_role(settings);
        let worked = event is InitSucceeded;
        match role.verdict(attempt, worked) {
            InitVerdict::Ready => {
                assert(role.ready_actions(attempt)[k] != StartupAction::PublishMux);
            },
            InitVerdict::Retry => {
                let retry = role.retry_actions(attempt);
                if k < retry.len() {
                    assert(retry[k] != StartupAction::PublishMux);
                } else {
                    assert(role.attempt_actions(next_attempt(attempt))[k - retry.len()]
                        != StartupAction::PublishMux);
                }
            },
            InitVerdict::GiveUp => {
                assert(role.exhausted_actions(attempt)[k] != StartupAction::PublishMux);
            },
        }
    }
}

/// A pool is announced as ready exactly when it was initialized, and then it is
/// supervised.
pub proof fn lemma_ready_is_earned(role: InitRole, attempt: u32, worked: bool)
    ensures
        role.outcome_actions(attempt, worked).contains(StartupAction::BumpReadyVersion) <==> worked,
        worked ==> forall|i: int|
            0 <= i < 3 ==> role.outcome_actions(attempt, worked).contains(
                #[trigger] task_actions()[i],
            ),
{
    let actions = role.outcome_actions(attempt, worked);
    if worked {
        let lead: int = if role.is_primary() {
            5
        } else {
            3
        };
        assert(actions[if role.is_primary() {
            3int
        } else {
            2
        }] == StartupAction::BumpReadyVersion);
        assert forall|i: int| 0 <= i < 3 implies actions.contains(#[trigger] task_actions()[i]) by {
            assert(actions[lead + i] == task_actions()[i]);
        }
    } else {
        match role.verdict(attempt, worked) {
            InitVerdict::Retry => {
                assert(actions =~= role.retry_actions(attempt) + role.attempt_actions(
                    next_attempt(attempt),
                ));
            },
            _ => {},
        }
    }
}

} // verus!

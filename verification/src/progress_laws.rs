//! What each step of start-up does, and what it notes about the components.

use vstd::prelude::*;

use crate::me_init::{next_attempt, InitRole, InitVerdict};
use crate::me_startup::{
    expects, first_step, inline_role, shard_actions, step, StartupEvent, StartupPhase,
    StartupSettings,
};
use crate::startup_actions::{Component, Note, StartupAction};
use crate::startup_laws::{course, possible};
use crate::status_laws::{attempt_after, lemma_failed_actions, lemma_worked_actions};

verus! {

/// Whether an action notes the progress of a component.
pub open spec fn is_note_on(action: StartupAction, component: Component) -> bool {
    match action {
        StartupAction::Start(c, _) => c == component,
        StartupAction::Complete(c, _) => c == component,
        StartupAction::Fail(c, _) => c == component,
        StartupAction::Skip(c, _) => c == component,
        _ => false,
    }
}

/// The last note on a component.
pub open spec fn last_note(actions: Seq<StartupAction>, component: Component) -> Option<
    StartupAction,
>
    decreases actions.len(),
{
    if actions.len() == 0 {
        None
    } else if is_note_on(actions.last(), component) {
        Some(actions.last())
    } else {
        last_note(actions.drop_last(), component)
    }
}

proof fn lemma_no_note(actions: Seq<StartupAction>, component: Component)
    requires
        forall|i: int| 0 <= i < actions.len() ==> !is_note_on(#[trigger] actions[i], component),
    ensures
        last_note(actions, component) is None,
    decreases actions.len(),
{
    if actions.len() > 0 {
        let shorter = actions.drop_last();
        assert forall|i: int| 0 <= i < shorter.len() implies !is_note_on(
            #[trigger] shorter[i],
            component,
        ) by {
            assert(shorter[i] == actions[i]);
        }
        lemma_no_note(shorter, component);
        assert(!is_note_on(actions[actions.len() - 1], component));
    }
}

proof fn lemma_note_at(actions: Seq<StartupAction>, component: Component, k: int)
    requires
        0 <= k < actions.len(),
        is_note_on(actions[k], component),
        forall|i: int| k < i < actions.len() ==> !is_note_on(#[trigger] actions[i], component),
    ensures
        last_note(actions, component) == Some(actions[k]),
    decreases actions.len(),
{
    if k < actions.len() - 1 {
        let shorter = actions.drop_last();
        assert forall|i: int| k < i < shorter.len() implies !is_note_on(
            #[trigger] shorter[i],
            component,
        ) by {
            assert(shorter[i] == actions[i]);
        }
        lemma_note_at(shorter, component, k);
        assert(!is_note_on(actions[actions.len() - 1], component));
    }
}

/// What is noted when the secret was fetched, or could not be had.
pub proof fn lemma_secret_notes(settings: StartupSettings, event: StartupEvent, c: Component)
    requires
        expects(StartupPhase::FetchingSecret, event),
    ensures
        ({
            let actions = step(settings, StartupPhase::FetchingSecret, event).1;
            last_note(actions, c) == if event is SecretFetched {
                match c {
                    Component::SecretFetch => Some(
                        StartupAction::Complete(c, Note::SecretLoaded),
                    ),
                    Component::ProxyConfigV4 => Some(StartupAction::Start(c, Note::LoadingV4)),
                    _ => None,
                }
            } else if settings.me2dc_fallback {
                match c {
                    Component::SecretFetch | Component::PoolInitStage1 => Some(
                        StartupAction::Fail(c, Note::SecretUnavailable),
                    ),
                    _ => Some(StartupAction::Skip(c, Note::SecretUnavailable)),
                }
            } else {
                None
            }
        }),
        ({
            let (next, actions) = step(settings, StartupPhase::FetchingSecret, event);
            let missing = event is SecretUnavailable;
            &&& next == if !missing {
                StartupPhase::LoadingV4
            } else if settings.me2dc_fallback {
                StartupPhase::Finished { with_pools: false }
            } else {
                StartupPhase::FetchingSecret
            }
            &&& actions.contains(StartupAction::RecordError) <==> missing
            &&& missing ==> actions.contains(
                StartupAction::ReportSecretMissing { retrying: !settings.me2dc_fallback },
            )
            &&& actions.contains(StartupAction::SleepSecs(2)) <==> missing
                && !settings.me2dc_fallback
            &&& actions.last() == StartupAction::FetchSecret <==> missing
                && !settings.me2dc_fallback
            &&& actions.last() == StartupAction::LoadConfig(Component::ProxyConfigV4)
                <==> !missing
            &&& actions.len() == if missing && settings.me2dc_fallback {
                8int
            } else {
                4int
            }
        }),
{
    let actions = step(settings, StartupPhase::FetchingSecret, event).1;
    if event is SecretFetched {
        match c {
            Component::SecretFetch => lemma_note_at(actions, c, 0),
            Component::ProxyConfigV4 => lemma_note_at(actions, c, 1),
            _ => lemma_no_note(actions, c),
        }
    } else if settings.me2dc_fallback {
        assert(actions[0] == StartupAction::RecordError);
        assert(actions[1] == StartupAction::ReportSecretMissing { retrying: false });
        match c {
            Component::SecretFetch => lemma_note_at(actions, c, 2),
            Component::ProxyConfigV4 => lemma_note_at(actions, c, 3),
            Component::ProxyConfigV6 => lemma_note_at(actions, c, 4),
            Component::PoolConstruct => lemma_note_at(actions, c, 5),
            Component::PoolInitStage1 => lemma_note_at(actions, c, 6),
        }
    } else {
        assert(actions[0] == StartupAction::RecordError);
        assert(actions[1] == StartupAction::ReportSecretMissing { retrying: true });
        assert(actions[2] == StartupAction::SleepSecs(2));
        lemma_no_note(actions, c);
    }
}

/// What is noted when a configuration was loaded, or could not be had. Pools are
/// built exactly when both were loaded.
pub proof fn lemma_config_notes(
    settings: StartupSettings,
    v4_loaded: bool,
    event: StartupEvent,
    c: Component,
)
    requires
        event is ConfigLoaded || event is ConfigUnavailable,
    ensures
        ({
            let (next, actions) = step(settings, StartupPhase::LoadingV4, event);
            &&& last_note(actions, c) == match c {
                Component::ProxyConfigV4 => Some(
                    if event is ConfigLoaded {
                        StartupAction::Complete(c, Note::V4Loaded)
                    } else {
                        StartupAction::Fail(c, Note::V4Unavailable)
                    },
                ),
                Component::ProxyConfigV6 => Some(StartupAction::Start(c, Note::LoadingV6)),
                _ => None,
            }
            &&& next == (StartupPhase::LoadingV6 { v4_loaded: event is ConfigLoaded })
            &&& actions.len() == 4
            &&& actions.last() == StartupAction::LoadConfig(Component::ProxyConfigV6)
        }),
        ({
            let (next, actions) = step(settings, StartupPhase::LoadingV6 { v4_loaded }, event);
            let both = v4_loaded && event is ConfigLoaded;
            &&& last_note(actions, c) == match c {
                Component::ProxyConfigV6 => Some(
                    if event is ConfigLoaded {
                        StartupAction::Complete(c, Note::V6Loaded)
                    } else {
                        StartupAction::Fail(c, Note::V6Unavailable)
                    },
                ),
                Component::PoolConstruct => Some(
                    if both {
                        StartupAction::Start(c, Note::Constructing)
                    } else {
                        StartupAction::Skip(c, Note::ConfigsIncomplete)
                    },
                ),
                Component::PoolInitStage1 => if both {
                    None
                } else {
                    Some(StartupAction::Fail(c, Note::ConfigsIncomplete))
                },
                _ => None,
            }
            &&& next == if both {
                StartupPhase::Constructing
            } else {
                StartupPhase::Finished { with_pools: false }
            }
            &&& actions.len() == 4
            &&& actions.last() == StartupAction::BuildPools <==> both
        }),
{
    let first = step(settings, StartupPhase::LoadingV4, event).1;
    match c {
        Component::ProxyConfigV4 => lemma_note_at(first, c, 0),
        Component::ProxyConfigV6 => lemma_note_at(first, c, 1),
        _ => lemma_no_note(first, c),
    }
    let second = step(settings, StartupPhase::LoadingV6 { v4_loaded }, event).1;
    match c {
        Component::ProxyConfigV6 => lemma_note_at(second, c, 0),
        Component::PoolConstruct => lemma_note_at(second, c, 1),
        Component::PoolInitStage1 => if v4_loaded && event is ConfigLoaded {
            lemma_no_note(second, c);
        } else {
            lemma_note_at(second, c, 2);
        },
        _ => lemma_no_note(second, c),
    }
}

/// What is noted and done when the pools were built: clients get them first, every
/// pool but the first gets its supervisor, in order, and then the first one is
/// initialized, in the background where clients may go around it, and else as
/// attempt number one while start-up waits.
#[verifier::rlimit(40)]
pub proof fn lemma_built_notes(settings: StartupSettings, shards: usize, c: Component)
    requires
        shards >= 1,
    ensures
        ({
            let (next, actions) = step(
                settings,
                StartupPhase::Constructing,
                StartupEvent::PoolsBuilt { shards },
            );
            let n = actions.len() as int;
            &&& last_note(actions, c) == match c {
                Component::PoolConstruct => Some(
                    StartupAction::Complete(c, Note::PoolsCreated { shards }),
                ),
                Component::PoolInitStage1 => Some(
                    StartupAction::Start(c, Note::InitializingWriters),
                ),
                _ => None,
            }
            &&& actions[1] == StartupAction::PublishMux
            &&& forall|i: int|
                0 <= i < n ==> (#[trigger] actions[i] is SuperviseShard <==> 2 <= i < shards + 1)
            &&& forall|i: int|
                2 <= i < shards + 1 ==> #[trigger] actions[i] == StartupAction::SuperviseShard(
                    (i - 1) as usize,
                )
            &&& if settings.me2dc_fallback {
                &&& next == (StartupPhase::Finished { with_pools: true })
                &&& n == shards + 6
                &&& actions.contains(StartupAction::SuperviseFirstInBackground)
                &&& actions.contains(StartupAction::ReportBackground)
                &&& !actions.contains(StartupAction::InitPool)
            } else {
                &&& next == (StartupPhase::Initializing { attempt: 1 })
                &&& n == shards + 5
                &&& actions[n - 2] == StartupAction::SetInitAttempt(1)
                &&& actions[n - 1] == StartupAction::InitPool
                &&& !actions.contains(StartupAction::SuperviseFirstInBackground)
            }
        }),
{
    let actions = step(
        settings,
        StartupPhase::Constructing,
        StartupEvent::PoolsBuilt { shards },
    ).1;
    let supervised = shard_actions(shards as nat);
    assert(supervised.len() == shards - 1);
    assert forall|i: int| 2 <= i < shards + 1 implies #[trigger] actions[i]
        == StartupAction::SuperviseShard((i - 1) as usize) by {
        assert(actions[i] == supervised[i - 2]);
    }
    match c {
        Component::PoolConstruct => lemma_note_at(actions, c, 0),
        Component::PoolInitStage1 => lemma_note_at(actions, c, shards + 1),
        _ => lemma_no_note(actions, c),
    }
    if settings.me2dc_fallback {
        assert(actions[shards + 3] == StartupAction::SuperviseFirstInBackground);
        assert(actions[shards + 5] == StartupAction::ReportBackground);
    }
}

/// What is noted when an attempt at the first pool ended while start-up waits: it
/// is complete when the attempt worked, failed when the bound on the attempts is
/// used up, and otherwise nothing is noted yet and there is another attempt.
#[verifier::rlimit(40)]
pub proof fn lemma_init_notes(
    settings: StartupSettings,
    attempt: u32,
    event: StartupEvent,
    c: Component,
)
    requires
        event is InitSucceeded || event is InitFailed,
    ensures
        ({
            let (next, actions) = step(settings, StartupPhase::Initializing { attempt }, event);
            let worked = event is InitSucceeded;
            let budget = settings.me_init_retry_attempts;
            let given_up = !worked && 0 < budget <= attempt;
            &&& last_note(actions, c) == if c != Component::PoolInitStage1 {
                None
            } else if worked {
                Some(StartupAction::Complete(c, Note::Initialized))
            } else if given_up {
                Some(StartupAction::Fail(c, Note::RetryBudgetExhausted))
            } else {
                None
            }
            &&& next == if worked {
                StartupPhase::Finished { with_pools: true }
            } else if given_up {
                StartupPhase::Finished { with_pools: false }
            } else {
                StartupPhase::Initializing {
                    attempt: if attempt < u32::MAX {
                        (attempt + 1) as u32
                    } else {
                        attempt
                    },
                }
            }
            &&& actions == (InitRole::PrimaryInline { budget }).outcome_actions(attempt, worked)
            &&& actions.last() == StartupAction::InitPool <==> !worked && !given_up
            &&& actions.contains(StartupAction::BumpReadyVersion) <==> worked
        }),
{
    let actions = step(settings, StartupPhase::Initializing { attempt }, event).1;
    let worked = event is InitSucceeded;
    let role = InitRole::PrimaryInline { budget: settings.me_init_retry_attempts };
    crate::startup_laws::lemma_ready_is_earned(role, attempt, worked);
    lemma_worked_actions(role, attempt);
    lemma_failed_actions(role, attempt);
    if c == Component::PoolInitStage1 && role.verdict(attempt, worked) != InitVerdict::Retry {
        lemma_note_at(actions, c, 1);
    } else {
        lemma_no_note(actions, c);
    }
}

/// Attempts are numbered one by one from one on, up to the largest number.
pub proof fn lemma_attempts_are_counted(failures: nat)
    ensures
        attempt_after(0) == 1,
        next_attempt(attempt_after(failures)) == attempt_after(failures + 1),
{
}

/// Whether an action asks the host for something that it has to report on.
pub open spec fn is_question(action: StartupAction) -> bool {
    action is FetchSecret || action is LoadConfig || action is BuildPools || action is InitPool
}

/// The host can report exactly what it was asked for: a secret or its absence, a
/// configuration or its absence, a number of pools, which is not zero, or how the
/// initialization ended.
pub proof fn lemma_reports_answer_questions(phase: StartupPhase, event: StartupEvent)
    ensures
        expects(phase, event) <==> match event {
            StartupEvent::SecretFetched | StartupEvent::SecretUnavailable => phase
                is FetchingSecret,
            StartupEvent::ConfigLoaded | StartupEvent::ConfigUnavailable => phase is LoadingV4
                || phase is LoadingV6,
            StartupEvent::PoolsBuilt { shards } => phase is Constructing && shards > 0,
            StartupEvent::InitSucceeded | StartupEvent::InitFailed => phase is Initializing,
        },
{
}

/// Each step asks for one thing, at its end, or for nothing when start-up is over.
#[verifier::rlimit(40)]
pub proof fn lemma_one_question(
    settings: StartupSettings,
    phase: StartupPhase,
    event: StartupEvent,
    i: int,
)
    requires
        expects(phase, event),
        0 <= i < step(settings, phase, event).1.len(),
    ensures
        is_question(step(settings, phase, event).1[i]) <==> i == step(
            settings,
            phase,
            event,
        ).1.len() - 1 && !(step(settings, phase, event).0 is Finished),
{
    let actions = step(settings, phase, event).1;
    match phase {
        StartupPhase::Constructing => {
            let supervised = shard_actions(event->shards as nat);
            if 2 <= i < 2 + supervised.len() {
                assert(actions[i] == supervised[i - 2]);
            }
        },
        StartupPhase::Initializing { attempt } => {
            let role = inline_role(settings);
            assert(role.is_primary());
            match role.verdict(attempt, event is InitSucceeded) {
                InitVerdict::Ready => {},
                InitVerdict::Retry => {},
                InitVerdict::GiveUp => {},
            }
        },
        _ => {},
    }
}

/// Start-up begins by fetching the secret, unless the middle end is not used.
pub proof fn lemma_beginning(settings: StartupSettings)
    ensures
        settings.use_middle_proxy ==> first_step(settings).0 is FetchingSecret && first_step(
            settings,
        ).1.len() == 1 && first_step(settings).1[0] == StartupAction::FetchSecret,
        !settings.use_middle_proxy ==> first_step(settings).0 == (StartupPhase::Finished {
            with_pools: false,
        }) && first_step(settings).1.len() == 0,
{
}

/// Pools are made available to clients at most once.
pub proof fn lemma_publishes_once(
    settings: StartupSettings,
    events: Seq<StartupEvent>,
    i: int,
    j: int,
)
    requires
        possible(settings, events),
        0 <= i < j < course(settings, events).1.len(),
        course(settings, events).1[i] == StartupAction::PublishMux,
    ensures
        course(settings, events).1[j] != StartupAction::PublishMux,
{
    lemma_unpublished(settings, events, i, j);
}

spec fn may_publish(phase: StartupPhase) -> bool {
    !(phase is Initializing) && !(phase is Finished)
}

#[verifier::rlimit(40)]
proof fn lemma_unpublished(settings: StartupSettings, events: Seq<StartupEvent>, i: int, j: int)
    requires
        possible(settings, events),
    ensures
        0 <= i < j < course(settings, events).1.len() && course(settings, events).1[i]
            == StartupAction::PublishMux ==> course(settings, events).1[j]
            != StartupAction::PublishMux,
        may_publish(course(settings, events).0) && 0 <= i < course(settings, events).1.len()
            ==> course(settings, events).1[i] != StartupAction::PublishMux,
        may_publish(course(settings, events).0) && 0 <= j < course(settings, events).1.len()
            ==> course(settings, events).1[j] != StartupAction::PublishMux,
    decreases events.len(),
{
    if events.len() > 0 {
        let past = events.drop_last();
        lemma_unpublished(settings, past, i, j);
        let before = course(settings, past);
        let event = events.last();
        let now = step(settings, before.0, event);
        let all = course(settings, events).1;
        assert(all == before.1 + now.1);
        if let StartupPhase::Constructing = before.0 {
            let supervised = shard_actions(event->shards as nat);
            assert forall|k: int| 0 <= k < now.1.len() && k != 1 implies #[trigger] now.1[k]
                != StartupAction::PublishMux by {
                if 2 <= k < 2 + supervised.len() {
                    assert(now.1[k] == supervised[k - 2]);
                }
            }
        } else {
            assert forall|k: int| 0 <= k < now.1.len() implies #[trigger] now.1[k]
                != StartupAction::PublishMux by {
                crate::startup_laws::lemma_published_when_built(settings, before.0, event, k);
            }
        }
        if before.1.len() <= i < all.len() {
            assert(all[i] == now.1[i - before.1.len()]);
        }
        if before.1.len() <= j < all.len() {
            assert(all[j] == now.1[j - before.1.len()]);
        }
    }
}

} // verus!

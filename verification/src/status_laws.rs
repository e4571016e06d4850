//! What start-up leaves on record.

use vstd::prelude::*;

use crate::me_init::{InitRole, InitVerdict};
use crate::me_startup::{
    first_step, shard_actions, step, StartupEvent, StartupPhase, StartupSettings,
};
use crate::startup_actions::{Component, Note, PoolTask, Stage, StartupAction, StartupMeStatus};
use crate::startup_laws::{course, lemma_disabled_startup_does_nothing, possible};

verus! {

/// The status that was set last, and its stage.
pub open spec fn last_status(actions: Seq<StartupAction>) -> Option<(StartupMeStatus, Stage)>
    decreases actions.len(),
{
    if actions.len() == 0 {
        None
    } else if let StartupAction::SetStatus(status, stage) = actions.last() {
        Some((status, stage))
    } else {
        last_status(actions.drop_last())
    }
}

/// Whether the status is ever set to `status`.
pub open spec fn sets_status(actions: Seq<StartupAction>, status: StartupMeStatus) -> bool {
    exists|i: int|
        0 <= i < actions.len() && (#[trigger] actions[i] matches StartupAction::SetStatus(s, _)
            && s == status)
}

proof fn lemma_last_status_joined(a: Seq<StartupAction>, b: Seq<StartupAction>)
    ensures
        last_status(a + b) == if last_status(b) is Some {
            last_status(b)
        } else {
            last_status(a)
        },
    decreases b.len(),
{
    if b.len() == 0 {
        assert(a + b =~= a);
    } else {
        lemma_last_status_joined(a, b.drop_last());
        assert((a + b).last() == b.last());
        assert((a + b).drop_last() =~= a + b.drop_last());
    }
}

proof fn lemma_no_status(actions: Seq<StartupAction>)
    requires
        forall|i: int| 0 <= i < actions.len() ==> !(#[trigger] actions[i] is SetStatus),
    ensures
        last_status(actions) is None,
    decreases actions.len(),
{
    if actions.len() > 0 {
        let shorter = actions.drop_last();
        assert forall|i: int| 0 <= i < shorter.len() implies !(#[trigger] shorter[i] is SetStatus) by {
            assert(shorter[i] == actions[i]);
        }
        lemma_no_status(shorter);
        assert(!(actions[actions.len() - 1] is SetStatus));
    }
}

proof fn lemma_status_at(actions: Seq<StartupAction>, k: int, status: StartupMeStatus, stage: Stage)
    requires
        0 <= k < actions.len(),
        actions[k] == StartupAction::SetStatus(status, stage),
        forall|i: int| k < i < actions.len() ==> !(#[trigger] actions[i] is SetStatus),
    ensures
        last_status(actions) == Some((status, stage)),
    decreases actions.len(),
{
    if k < actions.len() - 1 {
        let shorter = actions.drop_last();
        assert forall|i: int| k < i < shorter.len() implies !(#[trigger] shorter[i] is SetStatus) by {
            assert(shorter[i] == actions[i]);
        }
        lemma_status_at(shorter, k, status, stage);
        assert(!(actions[actions.len() - 1] is SetStatus));
    }
}

/// For every role of the first pool, inline or in the background, an attempt that
/// worked sets the status to ready and to nothing else; for no role does an
/// attempt that failed set it to ready. It is set to failed exactly by the failure
/// that uses up the bound on the attempts, and another pool never sets it.
pub proof fn lemma_outcome_status(role: InitRole, attempt: u32, worked: bool)
    ensures
        worked && role != InitRole::Supplementary ==> {
            let actions = role.outcome_actions(attempt, worked);
            &&& last_status(actions) == Some((StartupMeStatus::Ready, Stage::Ready))
            &&& sets_status(actions, StartupMeStatus::Ready)
            &&& !sets_status(actions, StartupMeStatus::Failed)
            &&& !sets_status(actions, StartupMeStatus::Initializing)
        },
        !worked ==> {
            let actions = role.outcome_actions(attempt, worked);
            let given_up = role matches InitRole::PrimaryInline { budget } && 0 < budget
                <= attempt;
            &&& !sets_status(actions, StartupMeStatus::Ready)
            &&& !sets_status(actions, StartupMeStatus::Initializing)
            &&& sets_status(actions, StartupMeStatus::Failed) <==> given_up
            &&& last_status(actions) == if given_up {
                Some((StartupMeStatus::Failed, Stage::Failed))
            } else {
                None
            }
        },
        role == InitRole::Supplementary ==> last_status(role.outcome_actions(attempt, worked)) is None,
{
    let actions = role.outcome_actions(attempt, worked);
    if worked {
        if role != InitRole::Supplementary {
            lemma_status_at(actions, 2, StartupMeStatus::Ready, Stage::Ready);
            assert(actions[2] == StartupAction::SetStatus(StartupMeStatus::Ready, Stage::Ready));
        } else {
            lemma_no_status(actions);
        }
    } else if role.verdict(attempt, worked) == InitVerdict::GiveUp {
        assert(actions[2] == StartupAction::SetStatus(StartupMeStatus::Failed, Stage::Failed));
        lemma_status_at(actions, 2, StartupMeStatus::Failed, Stage::Failed);
    } else {
        lemma_no_status(actions);
    }
}

/// What an attempt that worked brings about, for every role: the error on record
/// is taken back and the first stage is noted as complete for the first pool only,
/// another pool is marked as ready for clients, every pool is announced once and
/// all of its tasks run, and a pool in the background keeps its runtime alive at
/// the end. Nothing else is done.
#[verifier::rlimit(40)]
pub proof fn lemma_worked_actions(role: InitRole, attempt: u32)
    ensures
        ({
            let actions = role.outcome_actions(attempt, true);
            let primary = role != InitRole::Supplementary;
            &&& actions.no_duplicates()
            &&& actions.contains(StartupAction::ClearError) <==> primary
            &&& actions.contains(
                StartupAction::Complete(Component::PoolInitStage1, Note::Initialized),
            ) <==> primary
            &&& actions.contains(StartupAction::SetRuntimeReady) <==> !primary
            &&& actions.contains(StartupAction::BumpReadyVersion)
            &&& actions.contains(StartupAction::ReportReady { attempt })
            &&& actions.contains(StartupAction::SuperviseTask(PoolTask::HealthMonitor))
            &&& actions.contains(StartupAction::SuperviseTask(PoolTask::DrainTimeoutEnforcer))
            &&& actions.contains(StartupAction::SuperviseTask(PoolTask::ZombieWriterWatchdog))
            &&& actions.last() == StartupAction::KeepAlive <==> !(role is PrimaryInline)
            &&& actions.len() == if primary {
                5int
            } else {
                3int
            } + 3 + if role is PrimaryInline {
                0int
            } else {
                1int
            }
        }),
{
    let actions = role.outcome_actions(attempt, true);
    let p: int = if role.is_primary() {
        5
    } else {
        3
    };
    assert(actions[p] == StartupAction::SuperviseTask(PoolTask::HealthMonitor));
    assert(actions[p + 1] == StartupAction::SuperviseTask(PoolTask::DrainTimeoutEnforcer));
    assert(actions[p + 2] == StartupAction::SuperviseTask(PoolTask::ZombieWriterWatchdog));
    if role.is_primary() {
        assert(actions[0] == StartupAction::ClearError);
        assert(actions[1] == StartupAction::Complete(Component::PoolInitStage1, Note::Initialized));
        assert(actions[3] == StartupAction::BumpReadyVersion);
        assert(actions[4] == StartupAction::ReportReady { attempt });
    } else {
        assert(actions[0] == StartupAction::ReportReady { attempt });
        assert(actions[1] == StartupAction::SetRuntimeReady);
        assert(actions[2] == StartupAction::BumpReadyVersion);
    }
}

/// What an attempt that failed brings about, for every role. The error goes on
/// record for the first pool only. When the bound on its attempts is used up, the
/// first stage is noted as failed and that is all. Otherwise the failure is
/// reported, as a warning for another pool or from the third attempt on, what was
/// learned about the public address is forgotten, two seconds pass, and the pool
/// is initialized again; the first pool notes the number of that attempt before.
#[verifier::rlimit(40)]
pub proof fn lemma_failed_actions(role: InitRole, attempt: u32)
    ensures
        ({
            let actions = role.outcome_actions(attempt, false);
            let n = actions.len() as int;
            let primary = role != InitRole::Supplementary;
            let given_up = role matches InitRole::PrimaryInline { budget } && 0 < budget
                <= attempt;
            &&& actions[0] == StartupAction::RecordError <==> primary
            &&& actions.contains(StartupAction::RecordError) <==> primary
            &&& if given_up {
                &&& n == 4
                &&& actions.contains(
                    StartupAction::Fail(Component::PoolInitStage1, Note::RetryBudgetExhausted),
                )
                &&& actions.contains(StartupAction::ReportExhausted { attempt })
                &&& !actions.contains(StartupAction::InitPool)
            } else {
                &&& n == if primary {
                    6int
                } else {
                    4int
                }
                &&& actions[n - 1] == StartupAction::InitPool
                &&& primary ==> actions[n - 2] == StartupAction::SetInitAttempt(
                    if attempt < u32::MAX {
                        (attempt + 1) as u32
                    } else {
                        attempt
                    },
                )
                &&& actions[if primary {
                    n - 3
                } else {
                    n - 2
                }] == StartupAction::SleepSecs(2)
                &&& actions[if primary {
                    n - 4
                } else {
                    n - 3
                }] == StartupAction::ResetStunState
                &&& actions.contains(
                    StartupAction::ReportRetry { attempt, warning: attempt >= 3 || !primary },
                )
            }
        }),
{
    let actions = role.outcome_actions(attempt, false);
    if role.verdict(attempt, false) == InitVerdict::GiveUp {
        assert(actions[1] == StartupAction::Fail(
            Component::PoolInitStage1,
            Note::RetryBudgetExhausted,
        ));
        assert(actions[3] == StartupAction::ReportExhausted { attempt });
    } else {
        let warning = attempt >= 3 || !role.is_primary();
        assert(actions[if role.is_primary() {
            1int
        } else {
            0
        }] == StartupAction::ReportRetry { attempt, warning });
    }
}

/// The number of the attempt after `failures` failures.
pub open spec fn attempt_after(failures: nat) -> u32 {
    if failures < u32::MAX {
        (failures + 1) as u32
    } else {
        u32::MAX
    }
}

/// All that is done for a pool whose attempts ended as `outcomes` says.
pub open spec fn init_course(role: InitRole, outcomes: Seq<bool>) -> Seq<StartupAction>
    decreases outcomes.len(),
{
    if outcomes.len() == 0 {
        role.attempt_actions(1)
    } else {
        let before = outcomes.drop_last();
        init_course(role, before) + role.outcome_actions(
            attempt_after(before.len()),
            outcomes.last(),
        )
    }
}

/// Whether there was an attempt only as long as none had worked.
pub open spec fn in_turn(outcomes: Seq<bool>) -> bool {
    forall|i: int| 0 <= i < outcomes.len() - 1 ==> !#[trigger] outcomes[i]
}

proof fn lemma_background_status(outcomes: Seq<bool>)
    requires
        in_turn(outcomes),
    ensures
        last_status(init_course(InitRole::PrimaryBackground, outcomes)) == if outcomes.contains(
            true,
        ) {
            Some((StartupMeStatus::Ready, Stage::Ready))
        } else {
            None
        },
    decreases outcomes.len(),
{
    let role = InitRole::PrimaryBackground;
    if outcomes.len() == 0 {
        lemma_no_status(role.attempt_actions(1));
    } else {
        let before = outcomes.drop_last();
        assert(in_turn(before)) by {
            assert forall|i: int| 0 <= i < before.len() - 1 implies !#[trigger] before[i] by {
                assert(!outcomes[i]);
            }
        }
        lemma_background_status(before);
        let attempt = attempt_after(before.len());
        lemma_outcome_status(role, attempt, outcomes.last());
        lemma_last_status_joined(
            init_course(role, before),
            role.outcome_actions(attempt, outcomes.last()),
        );
        assert(!before.contains(true)) by {
            if before.contains(true) {
                let i = choose|i: int| 0 <= i < before.len() && before[i] == true;
                assert(!outcomes[i]);
            }
        }
        if outcomes.last() {
            assert(outcomes[outcomes.len() - 1] == true);
        } else if outcomes.contains(true) {
            let i = choose|i: int| 0 <= i < outcomes.len() && outcomes[i] == true;
            assert(before[i] == true);
        }
    }
}

/// Another pool leaves nothing on record about start-up, however its attempts
/// end, and announces itself as ready exactly when one worked.
pub proof fn lemma_other_pools_stay_off_record(outcomes: Seq<bool>, i: int)
    requires
        0 <= i < init_course(InitRole::Supplementary, outcomes).len(),
    ensures
        ({
            let action = init_course(InitRole::Supplementary, outcomes)[i];
            &&& !(action is Start) && !(action is Complete) && !(action is Fail)
            &&& !(action is Skip) && !(action is SetStatus) && !(action is RecordError)
            &&& !(action is ClearError) && !(action is SetInitAttempt)
            &&& action == StartupAction::BumpReadyVersion ==> outcomes.contains(true)
            &&& action == StartupAction::SetRuntimeReady ==> outcomes.contains(true)
        }),
    decreases outcomes.len(),
{
    if outcomes.len() > 0 {
        let before = outcomes.drop_last();
        let earlier = init_course(InitRole::Supplementary, before);
        if i < earlier.len() {
            lemma_other_pools_stay_off_record(before, i);
            if before.contains(true) {
                let k = choose|k: int| 0 <= k < before.len() && before[k] == true;
                assert(outcomes[k] == true);
            }
        } else if outcomes.last() {
            assert(outcomes[outcomes.len() - 1] == true);
        }
    }
}

/// The status that each phase of start-up is entered with.
#[verifier::rlimit(40)]
pub proof fn lemma_phase_status(settings: StartupSettings, events: Seq<StartupEvent>)
    requires
        settings.use_middle_proxy,
        possible(settings, events),
    ensures
        last_status(course(settings, events).1) == match course(settings, events).0 {
            StartupPhase::FetchingSecret => None,
            StartupPhase::LoadingV4 => Some(
                (StartupMeStatus::Initializing, Stage::Of(Component::ProxyConfigV4)),
            ),
            StartupPhase::LoadingV6 { .. } => Some(
                (StartupMeStatus::Initializing, Stage::Of(Component::ProxyConfigV6)),
            ),
            StartupPhase::Constructing => Some(
                (StartupMeStatus::Initializing, Stage::Of(Component::PoolConstruct)),
            ),
            StartupPhase::Initializing { .. } => Some(
                (StartupMeStatus::Initializing, Stage::Of(Component::PoolInitStage1)),
            ),
            StartupPhase::Finished { with_pools } => Some(
                if !with_pools {
                    (StartupMeStatus::Failed, Stage::Failed)
                } else if settings.me2dc_fallback {
                    (StartupMeStatus::Initializing, Stage::BackgroundInit)
                } else {
                    (StartupMeStatus::Ready, Stage::Ready)
                },
            ),
        },
    decreases events.len(),
{
    if events.len() == 0 {
        lemma_no_status(first_step(settings).1);
    } else {
        let past = events.drop_last();
        lemma_phase_status(settings, past);
        lemma_success_is_last(settings, past);
        let before = course(settings, past);
        let event = events.last();
        let now = step(settings, before.0, event);
        lemma_last_status_joined(before.1, now.1);
        match before.0 {
            StartupPhase::FetchingSecret => {
                if event is SecretFetched {
                    lemma_status_at(
                        now.1,
                        2,
                        StartupMeStatus::Initializing,
                        Stage::Of(Component::ProxyConfigV4),
                    );
                } else if settings.me2dc_fallback {
                    lemma_status_at(now.1, 7, StartupMeStatus::Failed, Stage::Failed);
                } else {
                    lemma_no_status(now.1);
                }
            },
            StartupPhase::LoadingV4 => {
                lemma_status_at(
                    now.1,
                    2,
                    StartupMeStatus::Initializing,
                    Stage::Of(Component::ProxyConfigV6),
                );
            },
            StartupPhase::LoadingV6 { v4_loaded } => {
                if v4_loaded && event is ConfigLoaded {
                    lemma_status_at(
                        now.1,
                        2,
                        StartupMeStatus::Initializing,
                        Stage::Of(Component::PoolConstruct),
                    );
                } else {
                    lemma_status_at(now.1, 3, StartupMeStatus::Failed, Stage::Failed);
                }
            },
            StartupPhase::Constructing => {
                let last = 3 + shard_actions(event->shards as nat).len() as int;
                if settings.me2dc_fallback {
                    lemma_status_at(
                        now.1,
                        last + 2,
                        StartupMeStatus::Initializing,
                        Stage::BackgroundInit,
                    );
                } else {
                    lemma_status_at(
                        now.1,
                        last,
                        StartupMeStatus::Initializing,
                        Stage::Of(Component::PoolInitStage1),
                    );
                }
            },
            StartupPhase::Initializing { attempt } => {
                let role = InitRole::PrimaryInline { budget: settings.me_init_retry_attempts };
                lemma_outcome_status(role, attempt, event is InitSucceeded);
            },
            StartupPhase::Finished { .. } => {},
        }
    }
}

/// When start-up waits for the first pool, it is over once the pool was
/// initialized; elsewhere that is not reported.
proof fn lemma_success_is_last(settings: StartupSettings, events: Seq<StartupEvent>)
    requires
        settings.use_middle_proxy,
        possible(settings, events),
    ensures
        events.contains(StartupEvent::InitSucceeded) <==> !settings.me2dc_fallback && course(
            settings,
            events,
        ).0 == (StartupPhase::Finished { with_pools: true }),
        settings.me2dc_fallback ==> !(course(settings, events).0 is Initializing),
    decreases events.len(),
{
    if events.len() > 0 {
        let past = events.drop_last();
        lemma_success_is_last(settings, past);
        assert(events =~= past.push(events.last()));
        vstd::seq_lib::lemma_seq_contains_after_push(
            past,
            events.last(),
            StartupEvent::InitSucceeded,
        );
    }
}

/// All that is done by start-up and, once it has handed the first pool to the
/// background, by the initialization there.
pub open spec fn whole_course(
    settings: StartupSettings,
    events: Seq<StartupEvent>,
    outcomes: Seq<bool>,
) -> Seq<StartupAction> {
    let started = course(settings, events);
    if settings.me2dc_fallback && started.0 == (StartupPhase::Finished { with_pools: true }) {
        started.1 + init_course(InitRole::PrimaryBackground, outcomes)
    } else {
        started.1
    }
}

/// Over start-up and background initialization, the last status that is set is
/// ready exactly when the first pool was initialized, in one or the other.
pub proof fn lemma_ready_iff_initialized(
    settings: StartupSettings,
    events: Seq<StartupEvent>,
    outcomes: Seq<bool>,
)
    requires
        possible(settings, events),
        in_turn(outcomes),
    ensures
        ({
            let in_background = settings.me2dc_fallback && course(settings, events).0 == (
            StartupPhase::Finished { with_pools: true });
            let initialized = events.contains(StartupEvent::InitSucceeded) || (in_background
                && outcomes.contains(true));
            let status = last_status(whole_course(settings, events, outcomes));
            &&& initialized <==> (status matches Some(s) && s.0 == StartupMeStatus::Ready)
            &&& initialized ==> status == Some((StartupMeStatus::Ready, Stage::Ready))
        }),
{
    if settings.use_middle_proxy {
        lemma_phase_status(settings, events);
        lemma_success_is_last(settings, events);
        lemma_background_status(outcomes);
        lemma_last_status_joined(
            course(settings, events).1,
            init_course(InitRole::PrimaryBackground, outcomes),
        );
    } else {
        lemma_disabled_startup_does_nothing(settings, events);
        lemma_no_status(course(settings, events).1);
    }
}

/// The last status that is set is failed exactly when start-up ended without
/// pools although the middle end is used.
pub proof fn lemma_failed_iff_without_pools(
    settings: StartupSettings,
    events: Seq<StartupEvent>,
    outcomes: Seq<bool>,
)
    requires
        possible(settings, events),
        in_turn(outcomes),
    ensures
        (last_status(whole_course(settings, events, outcomes)) matches Some(s) && s.0
            == StartupMeStatus::Failed) <==> settings.use_middle_proxy && course(
            settings,
            events,
        ).0 == (StartupPhase::Finished { with_pools: false }),
{
    if settings.use_middle_proxy {
        lemma_phase_status(settings, events);
        lemma_background_status(outcomes);
        lemma_last_status_joined(
            course(settings, events).1,
            init_course(InitRole::PrimaryBackground, outcomes),
        );
    } else {
        lemma_disabled_startup_does_nothing(settings, events);
        lemma_no_status(course(settings, events).1);
    }
}

} // verus!

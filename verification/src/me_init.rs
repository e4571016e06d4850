//! Initialization of one pool, tried until it works or the attempts run out.

use vstd::prelude::*;
use vstd::string::*;

use crate::startup_actions::{
    Component, Note, PoolTask, Stage, StartupAction, StartupMeStatus,
};
use crate::text::{numeral, push_number};

verus! {

/// Seconds between two attempts.
pub const INIT_RETRY_SECS: u64 = 2;

/// The attempt from which failures are logged as warnings.
pub const INIT_WARN_AFTER_ATTEMPTS: u32 = 3;

/// Seconds before a pool task that panicked is run again.
pub const TASK_PANIC_RESTART_SECS: u64 = 1;

/// Which pool is initialized, and how.
#[derive(Clone, Copy, Debug, PartialEq, Eq, Structural)]
pub enum InitRole {
    /// The first pool, while start-up waits. `budget` bounds the attempts; zero
    /// stands for no bound.
    PrimaryInline { budget: u32 },
    /// The first pool, in the background.
    PrimaryBackground,
    /// Another pool, in the background.
    Supplementary,
}

/// What comes after an attempt.
#[derive(Clone, Copy, Debug, PartialEq, Eq, Structural)]
pub enum InitVerdict {
    /// The pool is ready.
    Ready,
    /// There is another attempt.
    Retry,
    /// There is no other attempt.
    GiveUp,
}

/// The attempt after `attempt`.
pub open spec fn next_attempt(attempt: u32) -> u32 {
    if attempt == u32::MAX {
        attempt
    } else {
        (attempt + 1) as u32
    }
}

/// The tasks of a pool that is ready.
pub open spec fn task_actions() -> Seq<StartupAction> {
    seq![
        StartupAction::SuperviseTask(PoolTask::HealthMonitor),
        StartupAction::SuperviseTask(PoolTask::DrainTimeoutEnforcer),
        StartupAction::SuperviseTask(PoolTask::ZombieWriterWatchdog),
    ]
}

impl InitRole {
    /// Whether this is the first pool, whose progress is that of start-up.
    pub open spec fn is_primary(self) -> bool {
        !(self is Supplementary)
    }

    /// Whether the pool has a runtime of its own.
    pub open spec fn in_background(self) -> bool {
        !(self is PrimaryInline)
    }

    /// Whether a failure of `attempt` is the last that is put up with.
    pub open spec fn exhausted_at(self, attempt: u32) -> bool {
        self matches InitRole::PrimaryInline { budget } && budget > 0 && attempt >= budget
    }

    /// What is done for an attempt.
    pub open spec fn attempt_actions(self, attempt: u32) -> Seq<StartupAction> {
        if self.is_primary() {
            seq![StartupAction::SetInitAttempt(attempt), StartupAction::InitPool]
        } else {
            seq![StartupAction::InitPool]
        }
    }

    /// What is done when an attempt worked.
    pub open spec fn ready_actions(self, attempt: u32) -> Seq<StartupAction> {
        let announced = if self.is_primary() {
            seq![
                StartupAction::ClearError,
                StartupAction::Complete(Component::PoolInitStage1, Note::Initialized),
                StartupAction::SetStatus(StartupMeStatus::Ready, Stage::Ready),
                StartupAction::BumpReadyVersion,
                StartupAction::ReportReady { attempt },
            ]
        } else {
            seq![
                StartupAction::ReportReady { attempt },
                StartupAction::SetRuntimeReady,
                StartupAction::BumpReadyVersion,
            ]
        };
        if self.in_background() {
            (announced + task_actions()).push(StartupAction::KeepAlive)
        } else {
            announced + task_actions()
        }
    }

    /// What is done when an attempt failed and another follows.
    pub open spec fn retry_actions(self, attempt: u32) -> Seq<StartupAction> {
        let pause = seq![
            StartupAction::ReportRetry {
                attempt,
                warning: !self.is_primary() || attempt >= INIT_WARN_AFTER_ATTEMPTS,
            },
            StartupAction::ResetStunState,
            StartupAction::SleepSecs(INIT_RETRY_SECS),
        ];
        if self.is_primary() {
            seq![StartupAction::RecordError] + pause
        } else {
            pause
        }
    }

    /// What is done when the last attempt failed.
    pub open spec fn exhausted_actions(self, attempt: u32) -> Seq<StartupAction> {
        seq![
            StartupAction::RecordError,
            StartupAction::Fail(Component::PoolInitStage1, Note::RetryBudgetExhausted),
            StartupAction::SetStatus(StartupMeStatus::Failed, Stage::Failed),
            StartupAction::ReportExhausted { attempt },
        ]
    }

    /// What comes after `attempt`.
    pub open spec fn verdict(self, attempt: u32, worked: bool) -> InitVerdict {
        if worked {
            InitVerdict::Ready
        } else if self.exhausted_at(attempt) {
            InitVerdict::GiveUp
        } else {
            InitVerdict::Retry
        }
    }

    /// What is done after `attempt`; a retry includes the next attempt.
    pub open spec fn outcome_actions(self, attempt: u32, worked: bool) -> Seq<StartupAction> {
        match self.verdict(attempt, worked) {
            InitVerdict::Ready => self.ready_actions(attempt),
            InitVerdict::Retry => self.retry_actions(attempt) + self.attempt_actions(
                next_attempt(attempt),
            ),
            InitVerdict::GiveUp => self.exhausted_actions(attempt),
        }
    }
}

/// The attempts at initializing one pool.
#[derive(Clone, Copy, Debug, PartialEq, Eq, Structural)]
pub struct InitLoop {
    pub role: InitRole,
    /// The attempt that runs.
    pub attempt: u32,
}

impl InitLoop {
    /// Begins the first attempt.
    pub fn begin(role: InitRole) -> (res: (InitLoop, Vec<StartupAction>))
        ensures
            res.0 == (InitLoop { role, attempt: 1 }),
            res.1@ == role.attempt_actions(1),
    {
        let mut actions: Vec<StartupAction> = Vec::new();
        push_attempt(role, 1, &mut actions);
        assert(actions@ =~= role.attempt_actions(1));
        (InitLoop { role, attempt: 1 }, actions)
    }

    /// Decides what follows an attempt that worked or failed.
    pub fn attempt_ended(&mut self, worked: bool) -> (res: (InitVerdict, Vec<StartupAction>))
        ensures
            res.0 == old(self).role.verdict(old(self).attempt, worked),
            res.1@ == old(self).role.outcome_actions(old(self).attempt, worked),
            *final(self) == (InitLoop {
                role: old(self).role,
                attempt: if res.0 == InitVerdict::Retry {
                    next_attempt(old(self).attempt)
                } else {
                    old(self).attempt
                },
            }),
    {
        let attempt = self.attempt;
        let role = self.role;
        let mut actions: Vec<StartupAction> = Vec::new();
        if worked {
            push_ready(role, attempt, &mut actions);
            assert(actions@ =~= role.ready_actions(attempt));
            return (InitVerdict::Ready, actions);
        }
        let exhausted = match role {
            InitRole::PrimaryInline { budget } => budget > 0 && attempt >= budget,
            _ => false,
        };
        if exhausted {
            actions.push(StartupAction::RecordError);
            actions.push(
                StartupAction::Fail(Component::PoolInitStage1, Note::RetryBudgetExhausted),
            );
            actions.push(StartupAction::SetStatus(StartupMeStatus::Failed, Stage::Failed));
            actions.push(StartupAction::ReportExhausted { attempt });
            assert(actions@ =~= role.exhausted_actions(attempt));
            return (InitVerdict::GiveUp, actions);
        }
        let primary = match role {
            InitRole::Supplementary => false,
            _ => true,
        };
        if primary {
            actions.push(StartupAction::RecordError);
        }
        let warning = !primary || attempt >= INIT_WARN_AFTER_ATTEMPTS;
        actions.push(StartupAction::ReportRetry { attempt, warning });
        actions.push(StartupAction::ResetStunState);
        actions.push(StartupAction::SleepSecs(INIT_RETRY_SECS));
        assert(actions@ =~= role.retry_actions(attempt));
        self.attempt = attempt.saturating_add(1);
        push_attempt(role, self.attempt, &mut actions);
        assert(actions@ =~= role.outcome_actions(attempt, worked));
        (InitVerdict::Retry, actions)
    }
}

/// Appends what is done for an attempt.
fn push_attempt(role: InitRole, attempt: u32, actions: &mut Vec<StartupAction>)
    ensures
        final(actions)@ == old(actions)@ + role.attempt_actions(attempt),
{
    let ghost before = actions@;
    match role {
        InitRole::Supplementary => {},
        _ => {
            actions.push(StartupAction::SetInitAttempt(attempt));
        },
    }
    actions.push(StartupAction::InitPool);
    assert(actions@ =~= before + role.attempt_actions(attempt));
}

/// Appends what is done when an attempt worked.
fn push_ready(role: InitRole, attempt: u32, actions: &mut Vec<StartupAction>)
    ensures
        final(actions)@ == old(actions)@ + role.ready_actions(attempt),
{
    let ghost before = actions@;
    match role {
        InitRole::Supplementary => {
            actions.push(StartupAction::ReportReady { attempt });
            actions.push(StartupAction::SetRuntimeReady);
            actions.push(StartupAction::BumpReadyVersion);
        },
        _ => {
            actions.push(StartupAction::ClearError);
            actions.push(StartupAction::Complete(Component::PoolInitStage1, Note::Initialized));
            actions.push(StartupAction::SetStatus(StartupMeStatus::Ready, Stage::Ready));
            actions.push(StartupAction::BumpReadyVersion);
            actions.push(StartupAction::ReportReady { attempt });
        },
    }
    actions.push(StartupAction::SuperviseTask(PoolTask::HealthMonitor));
    actions.push(StartupAction::SuperviseTask(PoolTask::DrainTimeoutEnforcer));
    actions.push(StartupAction::SuperviseTask(PoolTask::ZombieWriterWatchdog));
    match role {
        InitRole::PrimaryInline { .. } => {},
        _ => {
            actions.push(StartupAction::KeepAlive);
        },
    }
    assert(actions@ =~= before + role.ready_actions(attempt));
}

/// Seconds before a pool task that ended is run again: none after an exit, a
/// pause after a panic.
pub fn task_restart_secs(panicked: bool) -> (res: u64)
    ensures
        res == (if panicked {
            TASK_PANIC_RESTART_SECS
        } else {
            0
        }),
        panicked ==> res == 1,
{
    if panicked {
        TASK_PANIC_RESTART_SECS
    } else {
        0
    }
}

/// The ready version after one more pool is ready.
pub fn next_ready_version(version: u64) -> (res: u64)
    ensures
        res == (if version == u64::MAX {
            version as int
        } else {
            version + 1
        }),
{
    version.saturating_add(1)
}

/// The words for a bound on attempts, zero standing for none.
pub open spec fn retry_limit_words(attempts: u32) -> Seq<char> {
    if attempts == 0 {
        "unlimited"@
    } else {
        numeral(attempts as nat, 10)
    }
}

/// The words for a bound on attempts, zero standing for none.
pub fn retry_limit_text(attempts: u32) -> (res: String)
    ensures
        res@ == retry_limit_words(attempts),
{
    if attempts == 0 {
        "unlimited".to_owned()
    } else {
        let mut out = String::new();
        push_number(&mut out, attempts as u64, 10);
        assert(out@ =~= numeral(attempts as nat, 10));
        out
    }
}

} // verus!

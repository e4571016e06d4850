//! Start-up of the middle-end pool: what is done in which order, and when it
//! is given up.

use vstd::prelude::*;
use vstd::string::*;

use crate::me_init::{next_attempt, InitLoop, InitRole, InitVerdict};
use crate::startup_actions::{Component, Note, Stage, StartupAction, StartupMeStatus};

verus! {

/// Seconds between two attempts at fetching the secret.
pub const SECRET_RETRY_SECS: u64 = 2;

/// What the course of start-up depends on.
#[derive(Clone, Copy, Debug, PartialEq, Eq, Structural)]
pub struct StartupSettings {
    /// Whether the middle end is used at all.
    pub use_middle_proxy: bool,
    /// Whether clients may go around the pool while it is not ready.
    pub me2dc_fallback: bool,
    /// Bound on the attempts at initialization; zero stands for none.
    pub me_init_retry_attempts: u32,
}

/// Where start-up stands.
#[derive(Clone, Copy, Debug, PartialEq, Eq, Structural)]
pub enum StartupPhase {
    FetchingSecret,
    LoadingV4,
    LoadingV6 { v4_loaded: bool },
    Constructing,
    /// The first pool is being initialized.
    Initializing { attempt: u32 },
    /// Start-up is over, with pools for clients or without.
    Finished { with_pools: bool },
}

/// What the host reports.
#[derive(Clone, Copy, Debug, PartialEq, Eq, Structural)]
pub enum StartupEvent {
    SecretFetched,
    SecretUnavailable,
    ConfigLoaded,
    ConfigUnavailable,
    PoolsBuilt { shards: usize },
    InitSucceeded,
    InitFailed,
}

/// Whether the host can report `event` in `phase`: it answers what was asked.
pub open spec fn expects(phase: StartupPhase, event: StartupEvent) -> bool {
    match phase {
        StartupPhase::FetchingSecret => event is SecretFetched || event is SecretUnavailable,
        StartupPhase::LoadingV4 | StartupPhase::LoadingV6 { .. } => event is ConfigLoaded
            || event is ConfigUnavailable,
        StartupPhase::Constructing => event matches StartupEvent::PoolsBuilt { shards } && shards
            >= 1,
        StartupPhase::Initializing { .. } => event is InitSucceeded || event is InitFailed,
        StartupPhase::Finished { .. } => false,
    }
}

/// What is recorded when start-up fails for want of the secret.
pub open spec fn without_secret_actions() -> Seq<StartupAction> {
    seq![
        StartupAction::RecordError,
        StartupAction::ReportSecretMissing { retrying: false },
        StartupAction::Fail(Component::SecretFetch, Note::SecretUnavailable),
        StartupAction::Skip(Component::ProxyConfigV4, Note::SecretUnavailable),
        StartupAction::Skip(Component::ProxyConfigV6, Note::SecretUnavailable),
        StartupAction::Skip(Component::PoolConstruct, Note::SecretUnavailable),
        StartupAction::Fail(Component::PoolInitStage1, Note::SecretUnavailable),
        StartupAction::SetStatus(StartupMeStatus::Failed, Stage::Failed),
    ]
}

/// What is done once the secret is there.
pub open spec fn with_secret_actions() -> Seq<StartupAction> {
    seq![
        StartupAction::Complete(Component::SecretFetch, Note::SecretLoaded),
        StartupAction::Start(Component::ProxyConfigV4, Note::LoadingV4),
        StartupAction::SetStatus(
            StartupMeStatus::Initializing,
            Stage::Of(Component::ProxyConfigV4),
        ),
        StartupAction::LoadConfig(Component::ProxyConfigV4),
    ]
}

/// What is recorded of the IPv4 configuration.
pub open spec fn v4_result(loaded: bool) -> StartupAction {
    if loaded {
        StartupAction::Complete(Component::ProxyConfigV4, Note::V4Loaded)
    } else {
        StartupAction::Fail(Component::ProxyConfigV4, Note::V4Unavailable)
    }
}

/// What is recorded of the IPv6 configuration.
pub open spec fn v6_result(loaded: bool) -> StartupAction {
    if loaded {
        StartupAction::Complete(Component::ProxyConfigV6, Note::V6Loaded)
    } else {
        StartupAction::Fail(Component::ProxyConfigV6, Note::V6Unavailable)
    }
}

/// What is done after the IPv4 configuration was loaded or not.
pub open spec fn after_v4_actions(loaded: bool) -> Seq<StartupAction> {
    seq![
        v4_result(loaded),
        StartupAction::Start(Component::ProxyConfigV6, Note::LoadingV6),
        StartupAction::SetStatus(
            StartupMeStatus::Initializing,
            Stage::Of(Component::ProxyConfigV6),
        ),
        StartupAction::LoadConfig(Component::ProxyConfigV6),
    ]
}

/// What is done after both configurations were loaded or not.
pub open spec fn after_v6_actions(v4_loaded: bool, v6_loaded: bool) -> Seq<StartupAction> {
    if v4_loaded && v6_loaded {
        seq![
            v6_result(v6_loaded),
            StartupAction::Start(Component::PoolConstruct, Note::Constructing),
            StartupAction::SetStatus(
                StartupMeStatus::Initializing,
                Stage::Of(Component::PoolConstruct),
            ),
            StartupAction::BuildPools,
        ]
    } else {
        seq![
            v6_result(v6_loaded),
            StartupAction::Skip(Component::PoolConstruct, Note::ConfigsIncomplete),
            StartupAction::Fail(Component::PoolInitStage1, Note::ConfigsIncomplete),
            StartupAction::SetStatus(StartupMeStatus::Failed, Stage::Failed),
        ]
    }
}

/// Every pool but the first gets a supervisor of its own.
pub open spec fn shard_actions(shards: nat) -> Seq<StartupAction> {
    Seq::new(
        (shards - 1) as nat,
        |i: int| StartupAction::SuperviseShard((i + 1) as usize),
    )
}

/// What is done once the pools are built.
pub open spec fn built_actions(settings: StartupSettings, shards: usize) -> Seq<StartupAction> {
    let common = seq![
        StartupAction::Complete(Component::PoolConstruct, Note::PoolsCreated { shards }),
        StartupAction::PublishMux,
    ] + shard_actions(shards as nat) + seq![
        StartupAction::Start(Component::PoolInitStage1, Note::InitializingWriters),
        StartupAction::SetStatus(
            StartupMeStatus::Initializing,
            Stage::Of(Component::PoolInitStage1),
        ),
    ];
    if settings.me2dc_fallback {
        common + seq![
            StartupAction::SuperviseFirstInBackground,
            StartupAction::SetStatus(StartupMeStatus::Initializing, Stage::BackgroundInit),
            StartupAction::ReportBackground,
        ]
    } else {
        common + inline_role(settings).attempt_actions(1)
    }
}

/// How the first pool is initialized while start-up waits.
pub open spec fn inline_role(settings: StartupSettings) -> InitRole {
    InitRole::PrimaryInline { budget: settings.me_init_retry_attempts }
}

/// Where start-up begins, and what is done first.
pub open spec fn first_step(settings: StartupSettings) -> (StartupPhase, Seq<StartupAction>) {
    if settings.use_middle_proxy {
        (StartupPhase::FetchingSecret, seq![StartupAction::FetchSecret])
    } else {
        (StartupPhase::Finished { with_pools: false }, Seq::empty())
    }
}

/// Where start-up goes from `phase` on `event`, and what is done.
pub open spec fn step(settings: StartupSettings, phase: StartupPhase, event: StartupEvent) -> (
    StartupPhase,
    Seq<StartupAction>,
) {
    match phase {
        StartupPhase::FetchingSecret => if event is SecretFetched {
            (StartupPhase::LoadingV4, with_secret_actions())
        } else if settings.me2dc_fallback {
            (StartupPhase::Finished { with_pools: false }, without_secret_actions())
        } else {
            (
                StartupPhase::FetchingSecret,
                seq![
                    StartupAction::RecordError,
                    StartupAction::ReportSecretMissing { retrying: true },
                    StartupAction::SleepSecs(SECRET_RETRY_SECS),
                    StartupAction::FetchSecret,
                ],
            )
        },
        StartupPhase::LoadingV4 => (
            StartupPhase::LoadingV6 { v4_loaded: event is ConfigLoaded },
            after_v4_actions(event is ConfigLoaded),
        ),
        StartupPhase::LoadingV6 { v4_loaded } => (
            if v4_loaded && event is ConfigLoaded {
                StartupPhase::Constructing
            } else {
                StartupPhase::Finished { with_pools: false }
            },
            after_v6_actions(v4_loaded, event is ConfigLoaded),
        ),
        StartupPhase::Constructing => (
            if settings.me2dc_fallback {
                StartupPhase::Finished { with_pools: true }
            } else {
                StartupPhase::Initializing { attempt: 1 }
            },
            built_actions(settings, event->shards),
        ),
        StartupPhase::Initializing { attempt } => {
            let role = inline_role(settings);
            let worked = event is InitSucceeded;
            (
                match role.verdict(attempt, worked) {
                    InitVerdict::Ready => StartupPhase::Finished { with_pools: true },
                    InitVerdict::Retry => StartupPhase::Initializing {
                        attempt: next_attempt(attempt),
                    },
                    InitVerdict::GiveUp => StartupPhase::Finished { with_pools: false },
                },
                role.outcome_actions(attempt, worked),
            )
        },
        StartupPhase::Finished { .. } => (phase, Seq::empty()),
    }
}

/// Start-up of the middle-end pool.
#[derive(Clone, Copy, Debug, PartialEq, Eq, Structural)]
pub struct MeStartup {
    pub settings: StartupSettings,
    pub phase: StartupPhase,
}

impl MeStartup {
    /// Begins start-up.
    pub fn begin(settings: StartupSettings) -> (res: (MeStartup, Vec<StartupAction>))
        ensures
            res.0 == (MeStartup { settings, phase: first_step(settings).0 }),
            res.1@ == first_step(settings).1,
    {
        let mut actions: Vec<StartupAction> = Vec::new();
        let phase = if settings.use_middle_proxy {
            actions.push(StartupAction::FetchSecret);
            StartupPhase::FetchingSecret
        } else {
            StartupPhase::Finished { with_pools: false }
        };
        assert(actions@ =~= first_step(settings).1);
        (MeStartup { settings, phase }, actions)
    }

    /// Whether the host can report `event` now.
    pub fn can_report(&self, event: StartupEvent) -> (res: bool)
        ensures
            res == expects(self.phase, event),
    {
        match (self.phase, event) {
            (StartupPhase::FetchingSecret, StartupEvent::SecretFetched) => true,
            (StartupPhase::FetchingSecret, StartupEvent::SecretUnavailable) => true,
            (StartupPhase::LoadingV4, StartupEvent::ConfigLoaded) => true,
            (StartupPhase::LoadingV4, StartupEvent::ConfigUnavailable) => true,
            (StartupPhase::LoadingV6 { .. }, StartupEvent::ConfigLoaded) => true,
            (StartupPhase::LoadingV6 { .. }, StartupEvent::ConfigUnavailable) => true,
            (StartupPhase::Constructing, StartupEvent::PoolsBuilt { shards }) => shards >= 1,
            (StartupPhase::Initializing { .. }, StartupEvent::InitSucceeded) => true,
            (StartupPhase::Initializing { .. }, StartupEvent::InitFailed) => true,
            _ => false,
        }
    }

    /// Decides what follows what the host reports. The actions are to be done in
    /// order; the last one asks for the next report, unless start-up is over.
    pub fn next(&mut self, event: StartupEvent) -> (res: Vec<StartupAction>)
        requires
            expects(old(self).phase, event),
        ensures
            *final(self) == (MeStartup {
                settings: old(self).settings,
                phase: step(old(self).settings, old(self).phase, event).0,
            }),
            res@ == step(old(self).settings, old(self).phase, event).1,
    {
        match self.phase {
            StartupPhase::FetchingSecret => match event {
                StartupEvent::SecretFetched => self.secret_fetched(),
                _ => self.secret_unavailable(),
            },
            StartupPhase::LoadingV4 => match event {
                StartupEvent::ConfigLoaded => self.v4_done(true),
                _ => self.v4_done(false),
            },
            StartupPhase::LoadingV6 { v4_loaded } => match event {
                StartupEvent::ConfigLoaded => self.v6_done(v4_loaded, true),
                _ => self.v6_done(v4_loaded, false),
            },
            StartupPhase::Constructing => match event {
                StartupEvent::PoolsBuilt { shards } => self.pools_built(shards),
                _ => Vec::new(),
            },
            StartupPhase::Initializing { attempt } => match event {
                StartupEvent::InitSucceeded => self.init_ended(attempt, true),
                _ => self.init_ended(attempt, false),
            },
            StartupPhase::Finished { .. } => Vec::new(),
        }
    }

    fn secret_fetched(&mut self) -> (res: Vec<StartupAction>)
        requires
            old(self).phase is FetchingSecret,
        ensures
            *final(self) == (MeStartup { phase: StartupPhase::LoadingV4, ..*old(self) }),
            res@ == with_secret_actions(),
    {
        let mut actions: Vec<StartupAction> = Vec::new();
        actions.push(StartupAction::Complete(Component::SecretFetch, Note::SecretLoaded));
        actions.push(StartupAction::Start(Component::ProxyConfigV4, Note::LoadingV4));
        actions.push(
            StartupAction::SetStatus(
                StartupMeStatus::Initializing,
                Stage::Of(Component::ProxyConfigV4),
            ),
        );
        actions.push(StartupAction::LoadConfig(Component::ProxyConfigV4));
        self.phase = StartupPhase::LoadingV4;
        assert(actions@ =~= with_secret_actions());
        actions
    }

    fn secret_unavailable(&mut self) -> (res: Vec<StartupAction>)
        requires
            old(self).phase is FetchingSecret,
        ensures
            final(self).settings == old(self).settings,
            (final(self).phase, res@) == step(
                old(self).settings,
                old(self).phase,
                StartupEvent::SecretUnavailable,
            ),
    {
        let mut actions: Vec<StartupAction> = Vec::new();
        actions.push(StartupAction::RecordError);
        if self.settings.me2dc_fallback {
            actions.push(StartupAction::ReportSecretMissing { retrying: false });
            actions.push(StartupAction::Fail(Component::SecretFetch, Note::SecretUnavailable));
            actions.push(StartupAction::Skip(Component::ProxyConfigV4, Note::SecretUnavailable));
            actions.push(StartupAction::Skip(Component::ProxyConfigV6, Note::SecretUnavailable));
            actions.push(StartupAction::Skip(Component::PoolConstruct, Note::SecretUnavailable));
            actions.push(StartupAction::Fail(Component::PoolInitStage1, Note::SecretUnavailable));
            actions.push(StartupAction::SetStatus(StartupMeStatus::Failed, Stage::Failed));
            self.phase = StartupPhase::Finished { with_pools: false };
            assert(actions@ =~= without_secret_actions());
        } else {
            actions.push(StartupAction::ReportSecretMissing { retrying: true });
            actions.push(StartupAction::SleepSecs(SECRET_RETRY_SECS));
            actions.push(StartupAction::FetchSecret);
        }
        assert(actions@ =~= step(
            old(self).settings,
            old(self).phase,
            StartupEvent::SecretUnavailable,
        ).1);
        actions
    }

    fn v4_done(&mut self, loaded: bool) -> (res: Vec<StartupAction>)
        ensures
            *final(self) == (MeStartup {
                phase: StartupPhase::LoadingV6 { v4_loaded: loaded },
                ..*old(self)
            }),
            res@ == after_v4_actions(loaded),
    {
        let mut actions: Vec<StartupAction> = Vec::new();
        if loaded {
            actions.push(StartupAction::Complete(Component::ProxyConfigV4, Note::V4Loaded));
        } else {
            actions.push(StartupAction::Fail(Component::ProxyConfigV4, Note::V4Unavailable));
        }
        actions.push(StartupAction::Start(Component::ProxyConfigV6, Note::LoadingV6));
        actions.push(
            StartupAction::SetStatus(
                StartupMeStatus::Initializing,
                Stage::Of(Component::ProxyConfigV6),
            ),
        );
        actions.push(StartupAction::LoadConfig(Component::ProxyConfigV6));
        self.phase = StartupPhase::LoadingV6 { v4_loaded: loaded };
        assert(actions@ =~= after_v4_actions(loaded));
        actions
    }

    fn v6_done(&mut self, v4_loaded: bool, loaded: bool) -> (res: Vec<StartupAction>)
        ensures
            *final(self) == (MeStartup {
                phase: if v4_loaded && loaded {
                    StartupPhase::Constructing
                } else {
                    StartupPhase::Finished { with_pools: false }
                },
                ..*old(self)
            }),
            res@ == after_v6_actions(v4_loaded, loaded),
    {
        let mut actions: Vec<StartupAction> = Vec::new();
        if loaded {
            actions.push(StartupAction::Complete(Component::ProxyConfigV6, Note::V6Loaded));
        } else {
            actions.push(StartupAction::Fail(Component::ProxyConfigV6, Note::V6Unavailable));
        }
        if v4_loaded && loaded {
            actions.push(StartupAction::Start(Component::PoolConstruct, Note::Constructing));
            actions.push(
                StartupAction::SetStatus(
                    StartupMeStatus::Initializing,
                    Stage::Of(Component::PoolConstruct),
                ),
            );
            actions.push(StartupAction::BuildPools);
            self.phase = StartupPhase::Constructing;
        } else {
            actions.push(StartupAction::Skip(Component::PoolConstruct, Note::ConfigsIncomplete));
            actions.push(StartupAction::Fail(Component::PoolInitStage1, Note::ConfigsIncomplete));
            actions.push(StartupAction::SetStatus(StartupMeStatus::Failed, Stage::Failed));
            self.phase = StartupPhase::Finished { with_pools: false };
        }
        assert(actions@ =~= after_v6_actions(v4_loaded, loaded));
        actions
    }

    fn pools_built(&mut self, shards: usize) -> (res: Vec<StartupAction>)
        requires
            shards >= 1,
        ensures
            *final(self) == (MeStartup {
                phase: if old(self).settings.me2dc_fallback {
                    StartupPhase::Finished { with_pools: true }
                } else {
                    StartupPhase::Initializing { attempt: 1 }
                },
                ..*old(self)
            }),
            res@ == built_actions(old(self).settings, shards),
    {
        let mut actions: Vec<StartupAction> = Vec::new();
        actions.push(
            StartupAction::Complete(Component::PoolConstruct, Note::PoolsCreated { shards }),
        );
        actions.push(StartupAction::PublishMux);
        let ghost head = actions@;
        let ghost supervised = shard_actions(shards as nat);
        let mut idx: usize = 1;
        assert(actions@ =~= head + supervised.take(0));
        while idx < shards
            invariant
                1 <= idx <= shards,
                supervised == shard_actions(shards as nat),
                actions@ == head + supervised.take(idx - 1),
            decreases shards - idx,
        {
            actions.push(StartupAction::SuperviseShard(idx));
            assert(actions@ =~= head + supervised.take(idx as int));
            idx += 1;
        }
        assert(supervised.take(shards - 1) =~= supervised);
        actions.push(StartupAction::Start(Component::PoolInitStage1, Note::InitializingWriters));
        actions.push(
            StartupAction::SetStatus(
                StartupMeStatus::Initializing,
                Stage::Of(Component::PoolInitStage1),
            ),
        );
        if self.settings.me2dc_fallback {
            actions.push(StartupAction::SuperviseFirstInBackground);
            actions.push(
                StartupAction::SetStatus(StartupMeStatus::Initializing, Stage::BackgroundInit),
            );
            actions.push(StartupAction::ReportBackground);
            self.phase = StartupPhase::Finished { with_pools: true };
        } else {
            let budget = self.settings.me_init_retry_attempts;
            let (init, first) = InitLoop::begin(InitRole::PrimaryInline { budget });
            let mut first = first;
            actions.append(&mut first);
            self.phase = StartupPhase::Initializing { attempt: init.attempt };
        }
        assert(actions@ =~= built_actions(old(self).settings, shards));
        actions
    }

    fn init_ended(&mut self, attempt: u32, worked: bool) -> (res: Vec<StartupAction>)
        requires
            old(self).phase == (StartupPhase::Initializing { attempt }),
        ensures
            final(self).settings == old(self).settings,
            (final(self).phase, res@) == step(
                old(self).settings,
                old(self).phase,
                if worked {
                    StartupEvent::InitSucceeded
                } else {
                    StartupEvent::InitFailed
                },
            ),
    {
        let budget = self.settings.me_init_retry_attempts;
        let mut init = InitLoop { role: InitRole::PrimaryInline { budget }, attempt };
        let (verdict, actions) = init.attempt_ended(worked);
        self.phase =
        match verdict {
            InitVerdict::Ready => StartupPhase::Finished { with_pools: true },
            InitVerdict::Retry => StartupPhase::Initializing { attempt: init.attempt },
            InitVerdict::GiveUp => StartupPhase::Finished { with_pools: false },
        };
        actions
    }
}

} // verus!

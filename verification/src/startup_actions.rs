//! What start-up of the middle-end pool asks its host to do.

use vstd::prelude::*;
use vstd::string::*;

use crate::text::{numeral, push_number};

verus! {

/// The parts of start-up whose progress is followed.
#[derive(Clone, Copy, Debug, PartialEq, Eq, Structural)]
pub enum Component {
    SecretFetch,
    ProxyConfigV4,
    ProxyConfigV6,
    PoolConstruct,
    PoolInitStage1,
}

/// How far start-up has come.
#[derive(Clone, Copy, Debug, PartialEq, Eq, Structural)]
pub enum StartupMeStatus {
    Initializing,
    Ready,
    Failed,
}

/// The stage reported along with a status.
#[derive(Clone, Copy, Debug, PartialEq, Eq, Structural)]
pub enum Stage {
    /// Work on a component; its name is the stage.
    Of(Component),
    BackgroundInit,
    Ready,
    Failed,
}

impl Stage {
    /// The name of a stage that is not work on a component.
    pub open spec fn words(self) -> Option<Seq<char>> {
        match self {
            Stage::Of(_) => None,
            Stage::BackgroundInit => Some("background_init"@),
            Stage::Ready => Some("ready"@),
            Stage::Failed => Some("failed"@),
        }
    }

    /// The name of a stage that is not work on a component.
    pub fn label(&self) -> (res: Option<&'static str>)
        ensures
            (match res {
                Some(text) => Some(text@),
                None => None,
            }) == self.words(),
    {
        match *self {
            Stage::Of(_) => None,
            Stage::BackgroundInit => Some("background_init"),
            Stage::Ready => Some("ready"),
            Stage::Failed => Some("failed"),
        }
    }
}

/// What is noted about a component.
#[derive(Clone, Copy, Debug, PartialEq, Eq, Structural)]
pub enum Note {
    SecretLoaded,
    SecretUnavailable,
    LoadingV4,
    V4Loaded,
    V4Unavailable,
    LoadingV6,
    V6Loaded,
    V6Unavailable,
    ConfigsIncomplete,
    Constructing,
    PoolsCreated { shards: usize },
    InitializingWriters,
    Initialized,
    RetryBudgetExhausted,
}

impl Note {
    /// The words of the note.
    pub open spec fn words(self) -> Seq<char> {
        match self {
            Note::SecretLoaded => "proxy-secret loaded"@,
            Note::SecretUnavailable => "proxy-secret unavailable"@,
            Note::LoadingV4 => "load startup proxy-config v4"@,
            Note::V4Loaded => "proxy-config v4 loaded"@,
            Note::V4Unavailable => "proxy-config v4 unavailable"@,
            Note::LoadingV6 => "load startup proxy-config v6"@,
            Note::V6Loaded => "proxy-config v6 loaded"@,
            Note::V6Unavailable => "proxy-config v6 unavailable"@,
            Note::ConfigsIncomplete => "ME configs are incomplete"@,
            Note::Constructing => "construct ME pool"@,
            Note::PoolsCreated { shards } => "ME pool object created ("@ + numeral(
                shards as nat,
                10,
            ) + " shards)"@,
            Note::InitializingWriters => "initialize ME pool writers"@,
            Note::Initialized => "ME pool initialized"@,
            Note::RetryBudgetExhausted => "ME init retry budget exhausted"@,
        }
    }

    /// The words of the note.
    pub fn text(&self) -> (res: String)
        ensures
            res@ == self.words(),
    {
        match *self {
            Note::SecretLoaded => "proxy-secret loaded".to_owned(),
            Note::SecretUnavailable => "proxy-secret unavailable".to_owned(),
            Note::LoadingV4 => "load startup proxy-config v4".to_owned(),
            Note::V4Loaded => "proxy-config v4 loaded".to_owned(),
            Note::V4Unavailable => "proxy-config v4 unavailable".to_owned(),
            Note::LoadingV6 => "load startup proxy-config v6".to_owned(),
            Note::V6Loaded => "proxy-config v6 loaded".to_owned(),
            Note::V6Unavailable => "proxy-config v6 unavailable".to_owned(),
            Note::ConfigsIncomplete => "ME configs are incomplete".to_owned(),
            Note::Constructing => "construct ME pool".to_owned(),
            Note::PoolsCreated { shards } => {
                let mut out = "ME pool object created (".to_owned();
                push_number(&mut out, shards as u64, 10);
                out.append(" shards)");
                out
            },
            Note::InitializingWriters => "initialize ME pool writers".to_owned(),
            Note::Initialized => "ME pool initialized".to_owned(),
            Note::RetryBudgetExhausted => "ME init retry budget exhausted".to_owned(),
        }
    }
}

/// The background tasks of an initialized pool.
#[derive(Clone, Copy, Debug, PartialEq, Eq, Structural)]
pub enum PoolTask {
    HealthMonitor,
    DrainTimeoutEnforcer,
    ZombieWriterWatchdog,
}

/// One thing that the host is to do.
#[derive(Clone, Copy, Debug, PartialEq, Eq, Structural)]
pub enum StartupAction {
    /// Record that work on a component starts.
    Start(Component, Note),
    /// Record that a component is complete.
    Complete(Component, Note),
    /// Record that a component failed.
    Fail(Component, Note),
    /// Record that a component is left out.
    Skip(Component, Note),
    /// Record the status of start-up.
    SetStatus(StartupMeStatus, Stage),
    /// Record the error that was just reported.
    RecordError,
    /// Record that there is no error any more.
    ClearError,
    /// Record which attempt at initialization begins.
    SetInitAttempt(u32),
    /// Fetch the secret, and report whether it could be had.
    FetchSecret,
    /// Load the proxy configuration of the family, and report whether it could
    /// be had.
    LoadConfig(Component),
    /// Build one pool for each planned source address, and report how many.
    BuildPools,
    /// Make the pools available to clients.
    PublishMux,
    /// Initialize and supervise the pool at this position in the background.
    SuperviseShard(usize),
    /// Initialize and supervise the first pool in the background.
    SuperviseFirstInBackground,
    /// Initialize the pool, and report whether that worked.
    InitPool,
    /// Forget what the pool learned about its public address.
    ResetStunState,
    /// Wait for a number of seconds.
    SleepSecs(u64),
    /// Mark the pool as ready for clients.
    SetRuntimeReady,
    /// Announce that one more pool is ready.
    BumpReadyVersion,
    /// Run a task of the pool, and run it again whenever it ends.
    SuperviseTask(PoolTask),
    /// Keep the background runtime alive for good.
    KeepAlive,
    /// Log that the secret is missing, and that it is fetched again or that
    /// clients go around the pool.
    ReportSecretMissing { retrying: bool },
    /// Log that the pool is initialized.
    ReportReady { attempt: u32 },
    /// Log that initialization failed and is tried again.
    ReportRetry { attempt: u32, warning: bool },
    /// Log that initialization failed for good.
    ReportExhausted { attempt: u32 },
    /// Log that initialization goes on in the background.
    ReportBackground,
}

} // verus!

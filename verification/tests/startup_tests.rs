use telemt::ad_tag::{decode_ad_tag, TagError};
use telemt::ip::IpAddr;
use telemt::ip_text::parse_ip;
use telemt::me_init::{
    next_ready_version, retry_limit_text, task_restart_secs, InitLoop, InitRole, InitVerdict,
};
use telemt::me_plan::{default_dc, key_signature, MeConfig, MePlan};
use telemt::me_startup::{MeStartup, StartupEvent, StartupPhase, StartupSettings};
use telemt::runtime_settings::runtime_settings;
use telemt::shard_plan::{
    compute_shard_overrides, MeWriterBindMode, UpstreamConfig, UpstreamType,
};
use telemt::startup_actions::{
    Component, Note, PoolTask, Stage, StartupAction, StartupMeStatus,
};

fn mk_direct(bind_addresses: Option<Vec<&str>>) -> UpstreamConfig {
    UpstreamConfig {
        upstream_type: UpstreamType::Direct {
            interface: None,
            bind_addresses: bind_addresses.map(|v| v.into_iter().map(String::from).collect()),
            bindtodevice: None,
        },
        weight: 1,
        enabled: true,
        scopes: String::new(),
        selected_scope: String::new(),
        ipv4: None,
        ipv6: None,
    }
}

fn ip(text: &str) -> Option<IpAddr> {
    Some(parse_ip(text).unwrap())
}

#[test]
fn round_robin_mode_yields_single_none_regardless_of_bind_count() {
    let upstreams = vec![mk_direct(Some(vec!["198.51.100.10", "198.51.100.11"]))];
    let out = compute_shard_overrides(MeWriterBindMode::RoundRobin, &upstreams);
    assert_eq!(out, vec![None]);
}

#[test]
fn shard_mode_with_zero_bind_addresses_falls_back_to_single() {
    let upstreams = vec![mk_direct(None)];
    let out = compute_shard_overrides(MeWriterBindMode::Shard, &upstreams);
    assert_eq!(out, vec![None]);
}

#[test]
fn shard_mode_with_one_bind_address_falls_back_to_single() {
    let upstreams = vec![mk_direct(Some(vec!["198.51.100.10"]))];
    let out = compute_shard_overrides(MeWriterBindMode::Shard, &upstreams);
    assert_eq!(out, vec![None]);
}

#[test]
fn shard_mode_with_two_or_more_yields_one_some_per_address() {
    let upstreams = vec![mk_direct(Some(vec![
        "198.51.100.10",
        "198.51.100.11",
        "198.51.100.12",
    ]))];
    let out = compute_shard_overrides(MeWriterBindMode::Shard, &upstreams);
    assert_eq!(
        out,
        vec![
            ip("198.51.100.10"),
            ip("198.51.100.11"),
            ip("198.51.100.12"),
        ]
    );
    assert_eq!(out[1], Some(IpAddr::from_octets(198, 51, 100, 11)));
}

#[test]
fn shard_mode_unparseable_addresses_are_silently_dropped() {
    let upstreams = vec![mk_direct(Some(vec![
        "not-an-ip",
        "198.51.100.10",
        "also.not.ip",
        "198.51.100.11",
    ]))];
    let out = compute_shard_overrides(MeWriterBindMode::Shard, &upstreams);
    assert_eq!(out, vec![ip("198.51.100.10"), ip("198.51.100.11")]);
}

#[test]
fn shard_mode_socks_upstreams_contribute_no_shards() {
    let upstreams = vec![
        UpstreamConfig {
            upstream_type: UpstreamType::Socks5 {
                address: "127.0.0.1:1080".to_string(),
                interface: None,
                username: None,
                password: None,
            },
            weight: 1,
            enabled: true,
            scopes: String::new(),
            selected_scope: String::new(),
            ipv4: None,
            ipv6: None,
        },
        mk_direct(Some(vec!["198.51.100.10", "198.51.100.11"])),
    ];
    let out = compute_shard_overrides(MeWriterBindMode::Shard, &upstreams);
    assert_eq!(out.len(), 2);
    assert_eq!(out[0], ip("198.51.100.10"));
    assert_eq!(out[1], ip("198.51.100.11"));
}

#[test]
fn shard_mode_collects_addresses_over_upstreams_in_order() {
    let upstreams = vec![
        mk_direct(Some(vec!["2001:db8::2"])),
        mk_direct(None),
        mk_direct(Some(vec!["bad", "198.51.100.10"])),
    ];
    let out = compute_shard_overrides(MeWriterBindMode::Shard, &upstreams);
    assert_eq!(out, vec![ip("2001:db8::2"), ip("198.51.100.10")]);
}

fn settings(fallback: bool, budget: u32) -> StartupSettings {
    StartupSettings {
        use_middle_proxy: true,
        me2dc_fallback: fallback,
        me_init_retry_attempts: budget,
    }
}

fn drive(startup: &mut MeStartup, events: &[StartupEvent]) -> Vec<StartupAction> {
    let mut last = Vec::new();
    for event in events {
        assert!(startup.can_report(*event));
        last = startup.next(*event);
    }
    last
}

const BUILT: [StartupEvent; 4] = [
    StartupEvent::SecretFetched,
    StartupEvent::ConfigLoaded,
    StartupEvent::ConfigLoaded,
    StartupEvent::PoolsBuilt { shards: 3 },
];

#[test]
fn disabled_startup_does_nothing() {
    let (startup, actions) = MeStartup::begin(StartupSettings {
        use_middle_proxy: false,
        me2dc_fallback: true,
        me_init_retry_attempts: 0,
    });
    assert_eq!(startup.phase, StartupPhase::Finished { with_pools: false });
    assert_eq!(actions, vec![]);
    assert!(!startup.can_report(StartupEvent::SecretFetched));
}

#[test]
fn missing_secret_ends_startup_only_with_fallback() {
    let (mut startup, first) = MeStartup::begin(settings(true, 0));
    assert_eq!(first, vec![StartupAction::FetchSecret]);
    let actions = drive(&mut startup, &[StartupEvent::SecretUnavailable]);
    assert_eq!(startup.phase, StartupPhase::Finished { with_pools: false });
    assert_eq!(
        actions,
        vec![
            StartupAction::RecordError,
            StartupAction::ReportSecretMissing { retrying: false },
            StartupAction::Fail(Component::SecretFetch, Note::SecretUnavailable),
            StartupAction::Skip(Component::ProxyConfigV4, Note::SecretUnavailable),
            StartupAction::Skip(Component::ProxyConfigV6, Note::SecretUnavailable),
            StartupAction::Skip(Component::PoolConstruct, Note::SecretUnavailable),
            StartupAction::Fail(Component::PoolInitStage1, Note::SecretUnavailable),
            StartupAction::SetStatus(StartupMeStatus::Failed, Stage::Failed),
        ]
    );

    let (mut startup, _) = MeStartup::begin(settings(false, 1));
    for _ in 0..10 {
        let actions = drive(&mut startup, &[StartupEvent::SecretUnavailable]);
        assert_eq!(startup.phase, StartupPhase::FetchingSecret);
        assert_eq!(
            actions,
            vec![
                StartupAction::RecordError,
                StartupAction::ReportSecretMissing { retrying: true },
                StartupAction::SleepSecs(2),
                StartupAction::FetchSecret,
            ]
        );
    }
}

#[test]
fn both_configs_are_needed() {
    for (v4, v6) in [
        (StartupEvent::ConfigLoaded, StartupEvent::ConfigUnavailable),
        (StartupEvent::ConfigUnavailable, StartupEvent::ConfigLoaded),
        (
            StartupEvent::ConfigUnavailable,
            StartupEvent::ConfigUnavailable,
        ),
    ] {
        let (mut startup, _) = MeStartup::begin(settings(false, 0));
        drive(&mut startup, &[StartupEvent::SecretFetched, v4]);
        let actions = drive(&mut startup, &[v6]);
        assert_eq!(startup.phase, StartupPhase::Finished { with_pools: false });
        assert_eq!(
            actions[1..],
            [
                StartupAction::Skip(Component::PoolConstruct, Note::ConfigsIncomplete),
                StartupAction::Fail(Component::PoolInitStage1, Note::ConfigsIncomplete),
                StartupAction::SetStatus(StartupMeStatus::Failed, Stage::Failed),
            ]
        );
    }
}

#[test]
fn fallback_startup_goes_on_without_waiting() {
    let (mut startup, _) = MeStartup::begin(settings(true, 5));
    let actions = drive(&mut startup, &BUILT);
    assert_eq!(startup.phase, StartupPhase::Finished { with_pools: true });
    assert_eq!(
        actions,
        vec![
            StartupAction::Complete(Component::PoolConstruct, Note::PoolsCreated { shards: 3 }),
            StartupAction::PublishMux,
            StartupAction::SuperviseShard(1),
            StartupAction::SuperviseShard(2),
            StartupAction::Start(Component::PoolInitStage1, Note::InitializingWriters),
            StartupAction::SetStatus(
                StartupMeStatus::Initializing,
                Stage::Of(Component::PoolInitStage1)
            ),
            StartupAction::SuperviseFirstInBackground,
            StartupAction::SetStatus(StartupMeStatus::Initializing, Stage::BackgroundInit),
            StartupAction::ReportBackground,
        ]
    );
}

#[test]
fn retry_budget_bounds_inline_attempts() {
    let (mut startup, _) = MeStartup::begin(settings(false, 2));
    drive(&mut startup, &BUILT);
    assert_eq!(startup.phase, StartupPhase::Initializing { attempt: 1 });
    let actions = drive(&mut startup, &[StartupEvent::InitFailed]);
    assert_eq!(startup.phase, StartupPhase::Initializing { attempt: 2 });
    assert_eq!(
        actions,
        vec![
            StartupAction::RecordError,
            StartupAction::ReportRetry {
                attempt: 1,
                warning: false
            },
            StartupAction::ResetStunState,
            StartupAction::SleepSecs(2),
            StartupAction::SetInitAttempt(2),
            StartupAction::InitPool,
        ]
    );
    let actions = drive(&mut startup, &[StartupEvent::InitFailed]);
    assert_eq!(startup.phase, StartupPhase::Finished { with_pools: false });
    assert_eq!(
        actions,
        vec![
            StartupAction::RecordError,
            StartupAction::Fail(Component::PoolInitStage1, Note::RetryBudgetExhausted),
            StartupAction::SetStatus(StartupMeStatus::Failed, Stage::Failed),
            StartupAction::ReportExhausted { attempt: 2 },
        ]
    );
}

#[test]
fn unbounded_inline_attempts_go_on_until_one_works() {
    let (mut startup, _) = MeStartup::begin(settings(false, 0));
    drive(&mut startup, &BUILT);
    for attempt in 1..100u32 {
        let actions = drive(&mut startup, &[StartupEvent::InitFailed]);
        assert_eq!(
            actions[1],
            StartupAction::ReportRetry {
                attempt,
                warning: attempt >= 3
            }
        );
    }
    let actions = drive(&mut startup, &[StartupEvent::InitSucceeded]);
    assert_eq!(startup.phase, StartupPhase::Finished { with_pools: true });
    assert_eq!(
        actions,
        vec![
            StartupAction::ClearError,
            StartupAction::Complete(Component::PoolInitStage1, Note::Initialized),
            StartupAction::SetStatus(StartupMeStatus::Ready, Stage::Ready),
            StartupAction::BumpReadyVersion,
            StartupAction::ReportReady { attempt: 100 },
            StartupAction::SuperviseTask(PoolTask::HealthMonitor),
            StartupAction::SuperviseTask(PoolTask::DrainTimeoutEnforcer),
            StartupAction::SuperviseTask(PoolTask::ZombieWriterWatchdog),
        ]
    );
}

#[test]
fn background_pools_are_never_given_up() {
    let (mut init, first) = InitLoop::begin(InitRole::Supplementary);
    assert_eq!(first, vec![StartupAction::InitPool]);
    for attempt in 1..50u32 {
        let (verdict, actions) = init.attempt_ended(false);
        assert_eq!(verdict, InitVerdict::Retry);
        assert_eq!(
            actions,
            vec![
                StartupAction::ReportRetry {
                    attempt,
                    warning: true
                },
                StartupAction::ResetStunState,
                StartupAction::SleepSecs(2),
                StartupAction::InitPool,
            ]
        );
    }
    let (verdict, actions) = init.attempt_ended(true);
    assert_eq!(verdict, InitVerdict::Ready);
    assert_eq!(
        actions[..3],
        [
            StartupAction::ReportReady { attempt: 50 },
            StartupAction::SetRuntimeReady,
            StartupAction::BumpReadyVersion,
        ]
    );
    assert_eq!(actions.last(), Some(&StartupAction::KeepAlive));

    let (mut init, first) = InitLoop::begin(InitRole::PrimaryBackground);
    assert_eq!(
        first,
        vec![StartupAction::SetInitAttempt(1), StartupAction::InitPool]
    );
    assert_eq!(init.attempt_ended(false).0, InitVerdict::Retry);
    let (_, actions) = init.attempt_ended(true);
    assert_eq!(actions[0], StartupAction::ClearError);
    assert_eq!(actions.last(), Some(&StartupAction::KeepAlive));
}

#[test]
fn attempt_counter_stops_at_its_largest_value() {
    let mut init = InitLoop {
        role: InitRole::Supplementary,
        attempt: u32::MAX,
    };
    init.attempt_ended(false);
    assert_eq!(init.attempt, u32::MAX);
    assert_eq!(next_ready_version(4), 5);
    assert_eq!(next_ready_version(u64::MAX), u64::MAX);
}

#[test]
fn notes_and_limits_read_as_expected() {
    assert_eq!(Note::PoolsCreated { shards: 12 }.text(), "ME pool object created (12 shards)");
    assert_eq!(Note::SecretLoaded.text(), "proxy-secret loaded");
    assert_eq!(Note::RetryBudgetExhausted.text(), "ME init retry budget exhausted");
    assert_eq!(Stage::BackgroundInit.label(), Some("background_init"));
    assert_eq!(Stage::Ready.label(), Some("ready"));
    assert_eq!(Stage::Failed.label(), Some("failed"));
    assert_eq!(Stage::Of(Component::PoolConstruct).label(), None);
    assert_eq!(retry_limit_text(0), "unlimited");
    assert_eq!(retry_limit_text(30), "30");
    assert_eq!(task_restart_secs(true), 1);
    assert_eq!(task_restart_secs(false), 0);
}

fn config(tag: Option<&str>) -> MeConfig {
    MeConfig {
        middle_proxy_nat_probe: true,
        stun_use: false,
        middle_proxy_pool_size: 0,
        ad_tag: tag.map(String::from),
        proxy_config_v4_url: None,
        proxy_config_v6_url: Some("http://localhost/v6".to_string()),
    }
}

#[test]
fn plan_applies_defaults() {
    let plan = match MePlan::derive(&config(Some("00fF10"))) {
        Ok(plan) => plan,
        Err(e) => panic!("{:?}", e),
    };
    assert!(!plan.nat_probe);
    assert!(plan.nat_probe_overruled);
    assert_eq!(plan.pool_size, 1);
    assert_eq!(plan.proxy_tag, Some(vec![0x00, 0xff, 0x10]));
    assert_eq!(plan.v4_url, "https://core.telegram.org/getProxyConfig");
    assert_eq!(plan.v6_url, "http://localhost/v6");
    assert!(matches!(
        MePlan::derive(&config(Some("0"))),
        Err(TagError::OddLength)
    ));
    assert!(matches!(MePlan::derive(&config(None)), Ok(plan) if plan.proxy_tag.is_none()));
}

#[test]
fn tags_are_decoded_or_refused_for_one_reason() {
    assert_eq!(decode_ad_tag(None), Ok(None));
    assert_eq!(decode_ad_tag(Some("")), Ok(Some(vec![])));
    assert_eq!(decode_ad_tag(Some("6b697769")), Ok(Some(b"kiwi".to_vec())));
    assert_eq!(decode_ad_tag(Some("123")), Err(TagError::OddLength));
    assert_eq!(
        decode_ad_tag(Some("12xz")),
        Err(TagError::InvalidHexCharacter { c: 'x', index: 2 })
    );
    assert_eq!(
        decode_ad_tag(Some("1é2")),
        Err(TagError::InvalidHexCharacter {
            c: '\u{c3}',
            index: 1
        })
    );
}

#[test]
fn secrets_are_recognized_by_their_first_bytes() {
    assert_eq!(key_signature(&[1, 2, 3]), 0);
    assert_eq!(key_signature(&[0x78, 0x56, 0x34, 0x12, 0xff]), 0x1234_5678);
    assert_eq!(default_dc(Some(2), Some(4)), Some(2));
    assert_eq!(default_dc(None, Some(4)), Some(4));
    assert_eq!(default_dc(None, None), None);
}

#[test]
fn runtime_sizes_come_from_positive_settings() {
    let defaults = runtime_settings(None, None);
    assert_eq!(defaults.worker_threads, None);
    assert_eq!(defaults.max_blocking_threads, 1024);
    assert_eq!(defaults.event_interval, 31);
    assert_eq!(defaults.global_queue_interval, 31);
    let tuned = runtime_settings(Some("8"), Some("64"));
    assert_eq!(tuned.worker_threads, Some(8));
    assert_eq!(tuned.max_blocking_threads, 64);
    let unusable = runtime_settings(Some("0"), Some(" 7"));
    assert_eq!(unusable.worker_threads, None);
    assert_eq!(unusable.max_blocking_threads, 1024);
}

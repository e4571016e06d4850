use std::collections::hash_map::DefaultHasher;
use std::collections::HashSet;
use std::hash::{Hash, Hasher};
use std::sync::Arc;
use std::time::Duration;

use parking_lot::Mutex;
use telemt::clock::Clock;
use telemt::hashing::{hash_ip, hash_text};
use telemt::ip::IpAddr;
use telemt::ip_shard::{shard_count_for, shard_index};
use telemt::ip_tracker::UserIpTracker;
use telemt::tracker_model::UserMaxUniqueIpsMode;
use telemt::user_map::UserMap;

fn test_ipv4(oct1: u8, oct2: u8, oct3: u8, oct4: u8) -> IpAddr {
    IpAddr::from_octets(oct1, oct2, oct3, oct4)
}

fn test_ipv6() -> IpAddr {
    IpAddr::from_groups([0x2001, 0xdb8, 0, 0, 0, 0, 0, 1])
}

fn at(epoch_secs: u64, instant_secs: u64) -> Clock {
    Clock {
        epoch_secs,
        instant_nanos: instant_secs * 1_000_000_000,
    }
}

#[test]
fn test_basic_ip_limit() {
    let mut tracker = UserIpTracker::new(None);
    tracker.set_user_limit("test_user", 2);

    let ip1 = test_ipv4(192, 168, 1, 1);
    let ip2 = test_ipv4(192, 168, 1, 2);
    let ip3 = test_ipv4(192, 168, 1, 3);

    assert!(tracker.check_and_add("test_user", ip1).is_ok());
    assert!(tracker.check_and_add("test_user", ip2).is_ok());
    assert!(tracker.check_and_add("test_user", ip3).is_err());

    assert_eq!(tracker.get_active_ip_count("test_user"), 2);
}

#[test]
fn test_active_window_rejects_new_ip_and_keeps_existing_session() {
    let mut tracker = UserIpTracker::new(None);
    tracker.set_user_limit("test_user", 1);
    tracker.set_limit_policy(UserMaxUniqueIpsMode::ActiveWindow, 30);

    let ip1 = test_ipv4(10, 10, 10, 1);
    let ip2 = test_ipv4(10, 10, 10, 2);

    assert!(tracker.check_and_add("test_user", ip1).is_ok());
    assert!(tracker.is_ip_active("test_user", ip1));
    assert!(tracker.check_and_add("test_user", ip2).is_err());

    // Existing session remains active; only new unique IP is denied.
    assert!(tracker.is_ip_active("test_user", ip1));
    assert_eq!(tracker.get_active_ip_count("test_user"), 1);
}

#[test]
fn test_reconnection_from_same_ip() {
    let mut tracker = UserIpTracker::new(None);
    tracker.set_user_limit("test_user", 2);

    let ip1 = test_ipv4(192, 168, 1, 1);

    assert!(tracker.check_and_add("test_user", ip1).is_ok());
    assert!(tracker.check_and_add("test_user", ip1).is_ok());
    assert_eq!(tracker.get_active_ip_count("test_user"), 1);
}

#[test]
fn test_same_ip_disconnect_keeps_active_while_other_session_alive() {
    let mut tracker = UserIpTracker::new(None);
    tracker.set_user_limit("test_user", 2);

    let ip1 = test_ipv4(192, 168, 1, 1);

    assert!(tracker.check_and_add("test_user", ip1).is_ok());
    assert!(tracker.check_and_add("test_user", ip1).is_ok());
    assert_eq!(tracker.get_active_ip_count("test_user"), 1);

    tracker.remove_ip("test_user", ip1);
    assert_eq!(tracker.get_active_ip_count("test_user"), 1);

    tracker.remove_ip("test_user", ip1);
    assert_eq!(tracker.get_active_ip_count("test_user"), 0);
}

#[test]
fn test_ip_removal() {
    let mut tracker = UserIpTracker::new(None);
    tracker.set_user_limit("test_user", 2);

    let ip1 = test_ipv4(192, 168, 1, 1);
    let ip2 = test_ipv4(192, 168, 1, 2);
    let ip3 = test_ipv4(192, 168, 1, 3);

    assert!(tracker.check_and_add("test_user", ip1).is_ok());
    assert!(tracker.check_and_add("test_user", ip2).is_ok());
    assert!(tracker.check_and_add("test_user", ip3).is_err());

    tracker.remove_ip("test_user", ip1);

    assert!(tracker.check_and_add("test_user", ip3).is_ok());
    assert_eq!(tracker.get_active_ip_count("test_user"), 2);
}

#[test]
fn test_no_limit() {
    let mut tracker = UserIpTracker::new(None);

    let ip1 = test_ipv4(192, 168, 1, 1);
    let ip2 = test_ipv4(192, 168, 1, 2);
    let ip3 = test_ipv4(192, 168, 1, 3);

    assert!(tracker.check_and_add("test_user", ip1).is_ok());
    assert!(tracker.check_and_add("test_user", ip2).is_ok());
    assert!(tracker.check_and_add("test_user", ip3).is_ok());

    assert_eq!(tracker.get_active_ip_count("test_user"), 3);
}

#[test]
fn test_multiple_users() {
    let mut tracker = UserIpTracker::new(None);
    tracker.set_user_limit("user1", 2);
    tracker.set_user_limit("user2", 1);

    let ip1 = test_ipv4(192, 168, 1, 1);
    let ip2 = test_ipv4(192, 168, 1, 2);

    assert!(tracker.check_and_add("user1", ip1).is_ok());
    assert!(tracker.check_and_add("user1", ip2).is_ok());

    assert!(tracker.check_and_add("user2", ip1).is_ok());
    assert!(tracker.check_and_add("user2", ip2).is_err());
}

#[test]
fn test_ipv6_support() {
    let mut tracker = UserIpTracker::new(None);
    tracker.set_user_limit("test_user", 2);

    let ipv4 = test_ipv4(192, 168, 1, 1);
    let ipv6 = test_ipv6();

    assert!(tracker.check_and_add("test_user", ipv4).is_ok());
    assert!(tracker.check_and_add("test_user", ipv6).is_ok());

    assert_eq!(tracker.get_active_ip_count("test_user"), 2);
}

#[test]
fn test_get_active_ips() {
    let mut tracker = UserIpTracker::new(None);
    tracker.set_user_limit("test_user", 3);

    let ip1 = test_ipv4(192, 168, 1, 1);
    let ip2 = test_ipv4(192, 168, 1, 2);

    tracker.check_and_add("test_user", ip1).unwrap();
    tracker.check_and_add("test_user", ip2).unwrap();

    let active_ips = tracker.get_active_ips("test_user");
    assert_eq!(active_ips.len(), 2);
    assert!(active_ips.contains(&ip1));
    assert!(active_ips.contains(&ip2));
}

#[test]
fn test_stats() {
    let mut tracker = UserIpTracker::new(None);
    tracker.set_user_limit("user1", 3);
    tracker.set_user_limit("user2", 2);

    let ip1 = test_ipv4(192, 168, 1, 1);
    let ip2 = test_ipv4(192, 168, 1, 2);

    tracker.check_and_add("user1", ip1).unwrap();
    tracker.check_and_add("user2", ip2).unwrap();

    let stats = tracker.get_stats();
    assert_eq!(stats.len(), 2);

    assert!(stats.iter().any(|(name, _, _)| name == "user1"));
    assert!(stats.iter().any(|(name, _, _)| name == "user2"));
}

#[test]
fn test_clear_user_ips() {
    let mut tracker = UserIpTracker::new(None);
    let ip1 = test_ipv4(192, 168, 1, 1);

    tracker.check_and_add("test_user", ip1).unwrap();
    assert_eq!(tracker.get_active_ip_count("test_user"), 1);

    tracker.clear_user_ips("test_user");
    assert_eq!(tracker.get_active_ip_count("test_user"), 0);
}

#[test]
fn test_is_ip_active() {
    let mut tracker = UserIpTracker::new(None);
    let ip1 = test_ipv4(192, 168, 1, 1);
    let ip2 = test_ipv4(192, 168, 1, 2);

    tracker.check_and_add("test_user", ip1).unwrap();

    assert!(tracker.is_ip_active("test_user", ip1));
    assert!(!tracker.is_ip_active("test_user", ip2));
}

#[test]
fn test_load_limits_from_config() {
    let mut tracker = UserIpTracker::new(None);

    let mut config_limits = UserMap::new();
    config_limits.insert("user1".to_string(), 5);
    config_limits.insert("user2".to_string(), 3);

    tracker.load_limits(0, &config_limits);

    assert_eq!(tracker.get_user_limit("user1"), Some(5));
    assert_eq!(tracker.get_user_limit("user2"), Some(3));
    assert_eq!(tracker.get_user_limit("user3"), None);
}

#[test]
fn test_load_limits_replaces_previous_map() {
    let mut tracker = UserIpTracker::new(None);

    let mut first = UserMap::new();
    first.insert("user1".to_string(), 2);
    first.insert("user2".to_string(), 3);
    tracker.load_limits(0, &first);

    let mut second = UserMap::new();
    second.insert("user2".to_string(), 5);
    tracker.load_limits(0, &second);

    assert_eq!(tracker.get_user_limit("user1"), None);
    assert_eq!(tracker.get_user_limit("user2"), Some(5));
}

#[test]
fn test_global_each_limit_applies_without_user_override() {
    let mut tracker = UserIpTracker::new(None);
    tracker.load_limits(2, &UserMap::new());

    let ip1 = test_ipv4(172, 16, 0, 1);
    let ip2 = test_ipv4(172, 16, 0, 2);
    let ip3 = test_ipv4(172, 16, 0, 3);

    assert!(tracker.check_and_add("test_user", ip1).is_ok());
    assert!(tracker.check_and_add("test_user", ip2).is_ok());
    assert!(tracker.check_and_add("test_user", ip3).is_err());
    assert_eq!(tracker.get_user_limit("test_user"), Some(2));
}

#[test]
fn test_user_override_wins_over_global_each_limit() {
    let mut tracker = UserIpTracker::new(None);
    let mut limits = UserMap::new();
    limits.insert("test_user".to_string(), 1);
    tracker.load_limits(3, &limits);

    let ip1 = test_ipv4(172, 17, 0, 1);
    let ip2 = test_ipv4(172, 17, 0, 2);

    assert!(tracker.check_and_add("test_user", ip1).is_ok());
    assert!(tracker.check_and_add("test_user", ip2).is_err());
    assert_eq!(tracker.get_user_limit("test_user"), Some(1));
}

#[test]
fn test_time_window_mode_blocks_recent_ip_churn() {
    let mut tracker = UserIpTracker::new(None);
    tracker.set_user_limit("test_user", 1);
    tracker.set_limit_policy(UserMaxUniqueIpsMode::TimeWindow, 30);

    let ip1 = test_ipv4(10, 0, 0, 1);
    let ip2 = test_ipv4(10, 0, 0, 2);

    assert!(tracker.check_and_add("test_user", ip1).is_ok());
    tracker.remove_ip("test_user", ip1);
    assert!(tracker.check_and_add("test_user", ip2).is_err());
}

#[test]
fn test_combined_mode_enforces_active_and_recent_limits() {
    let mut tracker = UserIpTracker::new(None);
    tracker.set_user_limit("test_user", 1);
    tracker.set_limit_policy(UserMaxUniqueIpsMode::Combined, 30);

    let ip1 = test_ipv4(10, 0, 1, 1);
    let ip2 = test_ipv4(10, 0, 1, 2);

    assert!(tracker.check_and_add("test_user", ip1).is_ok());
    assert!(tracker.check_and_add("test_user", ip2).is_err());

    tracker.remove_ip("test_user", ip1);
    assert!(tracker.check_and_add("test_user", ip2).is_err());
}

#[test]
fn test_time_window_expires() {
    let mut tracker = UserIpTracker::new(None);
    tracker.set_user_limit("test_user", 1);
    tracker.set_limit_policy(UserMaxUniqueIpsMode::TimeWindow, 1);

    let ip1 = test_ipv4(10, 1, 0, 1);
    let ip2 = test_ipv4(10, 1, 0, 2);

    assert!(tracker.check_and_add("test_user", ip1).is_ok());
    tracker.remove_ip("test_user", ip1);
    assert!(tracker.check_and_add("test_user", ip2).is_err());

    let runtime = tokio::runtime::Builder::new_current_thread()
        .enable_time()
        .build()
        .unwrap();
    runtime.block_on(async {
        tokio::time::sleep(Duration::from_millis(1100)).await;
    });
    assert!(tracker.check_and_add("test_user", ip2).is_ok());
}

#[test]
fn test_memory_stats_reports_queue_and_entry_counts() {
    let mut tracker = UserIpTracker::new(None);
    tracker.set_user_limit("test_user", 4);
    let ip1 = test_ipv4(10, 2, 0, 1);
    let ip2 = test_ipv4(10, 2, 0, 2);

    tracker.check_and_add("test_user", ip1).unwrap();
    tracker.check_and_add("test_user", ip2).unwrap();
    tracker.enqueue_cleanup("test_user".to_string(), ip1);

    let snapshot = tracker.memory_stats();
    assert_eq!(snapshot.active_users, 1);
    assert_eq!(snapshot.recent_users, 1);
    assert_eq!(snapshot.active_entries, 2);
    assert_eq!(snapshot.recent_entries, 2);
    assert_eq!(snapshot.cleanup_queue_len, 1);
}

#[test]
fn test_compact_prunes_stale_recent_entries() {
    let mut tracker = UserIpTracker::new(None);
    tracker.set_limit_policy(UserMaxUniqueIpsMode::TimeWindow, 1);

    let stale_ip = test_ipv4(10, 3, 0, 1);
    tracker
        .check_and_add_at("stale-user", stale_ip, at(0, 0))
        .unwrap();
    tracker.remove_ip_at("stale-user", stale_ip, at(0, 0));
    assert!(tracker.recent_contains("stale-user", stale_ip));

    tracker
        .check_and_add_at("trigger-user", test_ipv4(10, 3, 0, 2), at(60, 5))
        .unwrap();

    let stale_exists = tracker.recent_contains("stale-user", stale_ip);
    assert!(!stale_exists);
}

#[test]
fn test_time_window_allows_same_ip_reconnect() {
    let mut tracker = UserIpTracker::new(None);
    tracker.set_user_limit("test_user", 1);
    tracker.set_limit_policy(UserMaxUniqueIpsMode::TimeWindow, 1);

    let ip1 = test_ipv4(10, 4, 0, 1);

    assert!(tracker.check_and_add("test_user", ip1).is_ok());
    tracker.remove_ip("test_user", ip1);
    assert!(tracker.check_and_add("test_user", ip1).is_ok());
}

#[test]
fn shard_count_defaults_to_power_of_two() {
    let tracker = UserIpTracker::new(None);
    assert!(tracker.shard_count().is_power_of_two());
    assert!(tracker.shard_count() >= 1);
    assert_eq!(tracker.shard_count(), 32);
}

#[test]
fn shard_index_is_stable_for_same_user_ip() {
    let mask = 31usize;
    let ip = test_ipv4(10, 0, 0, 1);
    let idx_a = shard_index("alice", ip, mask);
    for _ in 0..100 {
        assert_eq!(shard_index("alice", ip, mask), idx_a);
    }
}

#[test]
fn shard_index_spreads_empty_user_across_shards_by_ip() {
    let mask = 31usize;
    let mut seen = HashSet::new();
    for octet in 0u8..=255 {
        let ip = test_ipv4(10, 0, 0, octet);
        seen.insert(shard_index("", ip, mask));
    }
    // For 256 unique IPs across 32 shards we expect ≥ ~20 unique shards
    // (uniform expectation 32, with substantial slack for hash bias).
    assert!(
        seen.len() >= 16,
        "empty-user bucket only spread to {} shards out of 32 (expected ≥16)",
        seen.len()
    );
}

#[test]
fn concurrent_inc_dec_same_user_ip_holds_counter_invariant() {
    let runtime = tokio::runtime::Builder::new_multi_thread()
        .worker_threads(8)
        .build()
        .unwrap();
    let tracker = Arc::new(Mutex::new(UserIpTracker::new(None)));
    tracker.lock().set_user_limit("user", 8);
    let ip = test_ipv4(10, 9, 9, 9);

    runtime.block_on(async {
        let mut handles = Vec::new();
        for _ in 0..8u32 {
            let t = tracker.clone();
            handles.push(tokio::spawn(async move {
                for _ in 0..1_000u32 {
                    let _ = t.lock().check_and_add("user", ip);
                    t.lock().remove_ip("user", ip);
                }
            }));
        }
        for h in handles {
            h.await.unwrap();
        }
    });

    // Final state must be clean: zero active for this (user, ip).
    assert_eq!(tracker.lock().get_active_ip_count("user"), 0);
    let snapshot = tracker.lock().memory_stats();
    assert!(snapshot.active_entries == 0 || snapshot.active_entries == 1);
}

#[test]
fn concurrent_distinct_users_no_cross_shard_corruption() {
    let runtime = tokio::runtime::Builder::new_multi_thread()
        .worker_threads(8)
        .build()
        .unwrap();
    let tracker = Arc::new(Mutex::new(UserIpTracker::new(None)));
    tracker.lock().load_limits(0, &UserMap::new());

    runtime.block_on(async {
        let mut handles = Vec::new();
        for u in 0..64u32 {
            let t = tracker.clone();
            handles.push(tokio::spawn(async move {
                let user = format!("u{}", u);
                let ip = test_ipv4(10, 0, ((u >> 8) & 0xff) as u8, (u & 0xff) as u8);
                for _ in 0..200u32 {
                    let _ = t.lock().check_and_add(&user, ip);
                }
            }));
        }
        for h in handles {
            h.await.unwrap();
        }
    });

    // Each user should own exactly one IP.
    for u in 0..64u32 {
        let user = format!("u{}", u);
        assert_eq!(
            tracker.lock().get_active_ip_count(&user),
            1,
            "user {} active count mismatch",
            user
        );
    }
}

#[test]
fn shard_setting_is_clamped_and_rounded_up() {
    assert_eq!(shard_count_for(None), 32);
    assert_eq!(shard_count_for(Some("")), 32);
    assert_eq!(shard_count_for(Some("many")), 32);
    assert_eq!(shard_count_for(Some("0")), 1);
    assert_eq!(shard_count_for(Some("+000")), 1);
    assert_eq!(shard_count_for(Some("-4")), 32);
    assert_eq!(shard_count_for(Some("1")), 1);
    assert_eq!(shard_count_for(Some("+5")), 8);
    assert_eq!(shard_count_for(Some("64")), 64);
    assert_eq!(shard_count_for(Some("1000")), 1024);
    assert_eq!(shard_count_for(Some("1025")), 1024);
    assert_eq!(shard_count_for(Some("99999999999999999999999")), 32);
    assert_eq!(UserIpTracker::new(Some("3")).shard_count(), 4);
    assert_eq!(UserIpTracker::new(Some("0")).shard_count(), 1);
}

#[test]
fn hashes_agree_with_the_standard_hash_impls() {
    let mut h = DefaultHasher::new();
    "alice".hash(&mut h);
    assert_eq!(hash_text("alice"), h.finish());

    let mut h = DefaultHasher::new();
    0isize.hash(&mut h);
    u32::from_ne_bytes([10, 1, 2, 3]).hash(&mut h);
    assert_eq!(hash_ip(test_ipv4(10, 1, 2, 3)), h.finish());

    let mut h = DefaultHasher::new();
    1isize.hash(&mut h);
    0x2001_0db8_0000_0000_0000_0000_0000_0001u128
        .to_be()
        .hash(&mut h);
    assert_eq!(hash_ip(test_ipv6()), h.finish());
}

#[test]
fn limit_refusal_names_user_counts_and_mode() {
    let mut tracker = UserIpTracker::new(None);
    tracker.set_user_limit("bob", 2);
    tracker.set_limit_policy(UserMaxUniqueIpsMode::Combined, 30);
    let now = at(0, 1);
    tracker
        .check_and_add_at("bob", test_ipv4(1, 0, 0, 1), now)
        .unwrap();
    tracker
        .check_and_add_at("bob", test_ipv4(1, 0, 0, 2), now)
        .unwrap();
    assert_eq!(
        tracker.check_and_add_at("bob", test_ipv4(1, 0, 0, 3), now),
        Err("IP limit reached for user 'bob': active=2/2 recent=2/2 mode=Combined".to_string())
    );
}

/// Opens a session from each of 131072 addresses, divided among 4096 users.
fn fill(tracker: &mut UserIpTracker, prefix: &str, now: Clock) {
    for i in 0..131_072u32 {
        let user = format!("{}{:04}", prefix, i / 32);
        tracker.check_and_add_at(&user, IpAddr::V4(i), now).unwrap();
    }
}

#[test]
fn active_cap_keeps_out_new_pairs_but_not_open_ones() {
    let mut tracker = UserIpTracker::new(Some("8"));
    let now = at(0, 1);
    fill(&mut tracker, "u", now);
    assert_eq!(
        tracker.check_and_add_at("late", IpAddr::V4(131_072), now),
        Err("IP tracker active entry cap reached: entries=131072/131072".to_string())
    );
    assert_eq!(tracker.check_and_add_at("u0000", IpAddr::V4(7), now), Ok(()));
    let stats = tracker.memory_stats();
    assert_eq!(stats.active_users, 4096);
    assert_eq!(stats.active_entries, 131_072);
    assert_eq!(stats.recent_entries, 131_072);
    assert_eq!(stats.active_cap_rejects, 1);
    assert_eq!(stats.recent_cap_rejects, 0);
}

#[test]
fn recent_cap_keeps_out_new_pairs() {
    let mut tracker = UserIpTracker::new(Some("8"));
    let now = at(0, 1);
    fill(&mut tracker, "a", now);
    for i in 0..131_072u32 {
        tracker.remove_ip_at(&format!("a{:04}", i / 32), IpAddr::V4(i), now);
    }
    fill(&mut tracker, "b", now);
    tracker.remove_ip_at("b0000", IpAddr::V4(0), now);
    assert_eq!(
        tracker.check_and_add_at("late", IpAddr::V4(1), now),
        Err("IP tracker recent entry cap reached: entries=262144/262144".to_string())
    );
    let stats = tracker.memory_stats();
    assert_eq!(stats.active_entries, 131_071);
    assert_eq!(stats.recent_entries, 262_144);
    assert_eq!(stats.recent_cap_rejects, 1);
    // An address that is among the recent ones already needs no room.
    assert_eq!(tracker.check_and_add_at("a0000", IpAddr::V4(5), now), Ok(()));
    tracker.remove_ip_at("a0000", IpAddr::V4(5), now);
    tracker.clear_user_ips("a0001");
    assert_eq!(tracker.check_and_add_at("late", IpAddr::V4(1), now), Ok(()));
}

#[test]
fn window_is_counted_in_whole_seconds_and_inclusive() {
    let mut tracker = UserIpTracker::new(None);
    tracker.set_user_limit("u", 1);
    tracker.set_limit_policy(UserMaxUniqueIpsMode::TimeWindow, 2);
    let ip1 = test_ipv4(10, 0, 0, 1);
    let ip2 = test_ipv4(10, 0, 0, 2);
    tracker.check_and_add_at("u", ip1, at(0, 10)).unwrap();
    tracker.remove_ip_at("u", ip1, at(0, 10));
    assert!(tracker.check_and_add_at("u", ip2, at(0, 12)).is_err());
    let after = Clock {
        epoch_secs: 0,
        instant_nanos: 12_000_000_001,
    };
    assert!(tracker.check_and_add_at("u", ip2, after).is_ok());
}

#[test]
fn window_of_zero_seconds_counts_as_one() {
    let mut tracker = UserIpTracker::new(None);
    tracker.set_user_limit("u", 1);
    tracker.set_limit_policy(UserMaxUniqueIpsMode::TimeWindow, 0);
    let ip1 = test_ipv4(10, 0, 0, 1);
    let ip2 = test_ipv4(10, 0, 0, 2);
    tracker.check_and_add_at("u", ip1, at(0, 10)).unwrap();
    tracker.remove_ip_at("u", ip1, at(0, 10));
    assert!(tracker.check_and_add_at("u", ip2, at(0, 11)).is_err());
    assert!(tracker.check_and_add_at("u", ip2, at(0, 12)).is_ok());
}

#[test]
fn queued_releases_are_applied_like_departures() {
    let mut tracker = UserIpTracker::new(None);
    let ip = test_ipv4(10, 0, 0, 1);
    for _ in 0..3 {
        tracker.check_and_add("u", ip).unwrap();
    }
    tracker.enqueue_cleanup("u".to_string(), ip);
    tracker.enqueue_cleanup("u".to_string(), ip);
    let queued = tracker.memory_stats();
    assert_eq!(queued.cleanup_queue_len, 1);
    assert_eq!(queued.cleanup_deferred_releases, 2);
    assert!(tracker.is_ip_active("u", ip));
    assert_eq!(tracker.memory_stats().cleanup_queue_len, 0);
    tracker.remove_ip("u", ip);
    assert!(!tracker.is_ip_active("u", ip));
}

#[test]
fn one_drain_applies_at_most_one_batch() {
    let mut tracker = UserIpTracker::new(None);
    for i in 0..1500u32 {
        tracker.check_and_add("u", IpAddr::V4(i)).unwrap();
    }
    for i in 0..1500u32 {
        tracker.enqueue_cleanup("u".to_string(), IpAddr::V4(i));
    }
    assert_eq!(tracker.get_active_ip_count("u"), 476);
    assert_eq!(tracker.memory_stats().cleanup_queue_len, 476);
    tracker.run_periodic_maintenance();
    assert_eq!(tracker.memory_stats().active_entries, 0);
}

#[test]
fn counters_stay_exact_over_a_mixed_history() {
    let mut tracker = UserIpTracker::new(Some("4"));
    tracker.set_limit_policy(UserMaxUniqueIpsMode::TimeWindow, 3);
    for step in 0..400u32 {
        let user = format!("u{}", step % 7);
        let ip = IpAddr::V4(step % 11);
        let now = at((step as u64) * 2, step as u64);
        match step % 5 {
            0 | 1 | 2 => {
                let _ = tracker.check_and_add_at(&user, ip, now);
            }
            3 => tracker.remove_ip_at(&user, ip, now),
            _ => tracker.enqueue_cleanup(user.clone(), ip),
        }
        let stats = tracker.memory_stats();
        let mut active = 0;
        for u in 0..7 {
            active += tracker
                .get_stats_snapshot()
                .iter()
                .filter(|row| row.0 == format!("u{}", u))
                .map(|row| row.1)
                .sum::<usize>();
        }
        assert_eq!(stats.active_entries, active);
    }
    tracker.clear_all();
    let stats = tracker.memory_stats();
    assert_eq!(stats.active_entries, 0);
    assert_eq!(stats.recent_entries, 0);
    assert_eq!(stats.active_users, 0);
    assert_eq!(stats.recent_users, 0);
}

#[test]
fn refused_user_is_listed_without_addresses() {
    let mut tracker = UserIpTracker::new(None);
    tracker.load_limits(1, &UserMap::new());
    tracker.check_and_add("b", test_ipv4(1, 1, 1, 1)).unwrap();
    tracker.set_limit_policy(UserMaxUniqueIpsMode::ActiveWindow, 30);
    assert!(tracker.check_and_add("b", test_ipv4(1, 1, 1, 2)).is_err());
    tracker.remove_user_limit("b");
    tracker.set_user_limit("a", 4);
    tracker.check_and_add("a", test_ipv4(1, 1, 1, 3)).unwrap();
    assert_eq!(
        tracker.get_stats(),
        vec![("a".to_string(), 1, 4), ("b".to_string(), 1, 1)]
    );
    tracker.remove_ip("b", test_ipv4(1, 1, 1, 1));
    let rows = tracker.get_stats();
    assert_eq!(rows[0], ("a".to_string(), 1, 4));
}

#[test]
fn stats_are_formatted_line_by_line() {
    let mut tracker = UserIpTracker::new(None);
    assert_eq!(tracker.format_stats(), "No active users");
    tracker.set_user_limit("alice", 3);
    tracker.check_and_add("alice", test_ipv6()).unwrap();
    tracker.check_and_add("bob", test_ipv4(10, 0, 0, 7)).unwrap();
    assert_eq!(
        tracker.format_stats(),
        "User IP Statistics:\n==================\n\
         User: alice                Active IPs: 1/3\n  - 2001:db8::1\n\
         User: bob                  Active IPs: 1/unlimited\n  - 10.0.0.7\n"
    );
}

#[test]
fn address_lists_are_sorted_and_keyed_by_name() {
    let mut tracker = UserIpTracker::new(None);
    let now = at(0, 100);
    for ip in [
        test_ipv6(),
        test_ipv4(10, 0, 0, 9),
        test_ipv4(10, 0, 0, 2),
    ] {
        tracker.check_and_add_at("u", ip, now).unwrap();
    }
    let users = vec!["u".to_string(), "nobody".to_string(), "u".to_string()];
    let active = tracker.get_active_ips_for_users(&users);
    assert_eq!(active.len(), 2);
    let sorted = vec![test_ipv4(10, 0, 0, 2), test_ipv4(10, 0, 0, 9), test_ipv6()];
    assert_eq!(active.get(&"u".to_string()), Some(&sorted));
    assert_eq!(active.get(&"nobody".to_string()), Some(&vec![]));

    let recent = tracker.get_recent_ips_for_users_at(&users, at(0, 130));
    assert_eq!(recent.get(&"u".to_string()), Some(&sorted));
    let recent = tracker.get_recent_ips_for_users_at(&users, at(0, 131));
    assert_eq!(recent.get(&"u".to_string()), Some(&vec![]));

    let counts = tracker.get_recent_counts_for_users_at(&users, at(0, 130));
    assert_eq!(counts.get(&"u".to_string()), Some(&6));
    assert_eq!(counts.get(&"nobody".to_string()), Some(&0));
    let once = tracker.get_recent_counts_for_users_at(&users[..1], at(0, 130));
    assert_eq!(once.get(&"u".to_string()), Some(&3));
}

#[test]
fn clock_is_read_where_none_is_given() {
    let mut tracker = UserIpTracker::new(None);
    let ip = test_ipv4(10, 0, 0, 1);
    tracker.check_and_add("u", ip).unwrap();
    let users = vec!["u".to_string()];
    let counts = tracker.get_recent_counts_for_users(&users);
    assert_eq!(counts.get(&"u".to_string()), Some(&1));
    let counts = tracker.get_recent_counts_for_users_snapshot(&users);
    assert_eq!(counts.get(&"u".to_string()), Some(&1));
    let lists = tracker.get_recent_ips_for_users(&users);
    assert_eq!(lists.get(&"u".to_string()), Some(&vec![ip]));
}

#[test]
fn lowered_limit_does_not_touch_open_sessions() {
    let mut tracker = UserIpTracker::new(None);
    let ips: Vec<IpAddr> = (0..5).map(IpAddr::V4).collect();
    for ip in &ips {
        tracker.check_and_add("u", *ip).unwrap();
    }
    tracker.set_user_limit("u", 1);
    for ip in &ips {
        assert_eq!(tracker.check_and_add("u", *ip), Ok(()));
    }
    assert!(tracker.check_and_add("u", IpAddr::V4(9)).is_err());
    assert_eq!(tracker.get_active_ip_count("u"), 5);
}

#[test]
fn departure_undoes_admission() {
    let mut tracker = UserIpTracker::new(None);
    let ip = test_ipv4(10, 0, 0, 1);
    tracker.check_and_add("other", ip).unwrap();
    let before = tracker.get_stats();
    tracker.check_and_add("u", ip).unwrap();
    assert!(tracker.is_ip_active("u", ip));
    tracker.remove_ip("u", ip);
    assert_eq!(tracker.get_stats(), before);
    // A session that is not open cannot be closed.
    tracker.remove_ip("u", ip);
    assert_eq!(tracker.get_stats(), before);
}

#[test]
fn clearing_a_user_leaves_the_others() {
    let mut tracker = UserIpTracker::new(None);
    let ip = test_ipv4(10, 0, 0, 1);
    tracker.check_and_add("a", ip).unwrap();
    tracker.check_and_add("b", ip).unwrap();
    tracker.clear_user_ips("a");
    assert!(!tracker.is_ip_active("a", ip));
    assert!(!tracker.recent_contains("a", ip));
    assert!(tracker.is_ip_active("b", ip));
    assert!(tracker.recent_contains("b", ip));
    assert_eq!(tracker.memory_stats().active_entries, 1);
}

#[test]
fn zero_limit_stands_for_the_default() {
    let mut tracker = UserIpTracker::new(None);
    tracker.set_user_limit("u", 0);
    assert_eq!(tracker.get_user_limit("u"), None);
    let mut limits = UserMap::new();
    limits.insert("u".to_string(), 0);
    tracker.load_limits(4, &limits);
    assert_eq!(tracker.get_user_limit("u"), Some(4));
    tracker.set_user_limit("u", 2);
    assert_eq!(tracker.get_user_limit("u"), Some(2));
    tracker.remove_user_limit("u");
    assert_eq!(tracker.get_user_limit("u"), Some(4));
    tracker.remove_user_limit("nobody");
    assert_eq!(tracker.get_user_limit("nobody"), Some(4));
}

#[test]
fn compaction_runs_once_a_minute_and_keeps_sessions() {
    let mut tracker = UserIpTracker::new(None);
    tracker.set_limit_policy(UserMaxUniqueIpsMode::ActiveWindow, 1);
    let ip = test_ipv4(10, 0, 0, 1);
    tracker.check_and_add_at("open", ip, at(59, 0)).unwrap();
    tracker.check_and_add_at("gone", ip, at(59, 0)).unwrap();
    tracker.remove_ip_at("gone", ip, at(59, 0));
    tracker.run_periodic_maintenance_at(at(59, 100));
    assert_eq!(tracker.memory_stats().recent_entries, 2);
    tracker.run_periodic_maintenance_at(at(60, 100));
    let stats = tracker.memory_stats();
    assert_eq!(stats.recent_entries, 0);
    assert_eq!(stats.active_entries, 1);
    assert!(tracker.is_ip_active("open", ip));
    tracker.check_and_add_at("gone", ip, at(61, 100)).unwrap();
    tracker.run_periodic_maintenance_at(at(119, 200));
    assert_eq!(tracker.memory_stats().recent_entries, 1);
    tracker.run_periodic_maintenance_at(at(120, 200));
    assert_eq!(tracker.memory_stats().recent_entries, 0);
}

#[test]
fn clock_readings_stop_at_the_largest_value() {
    assert_eq!(Clock::from_readings(60, 5_000_000_000), at(60, 5));
    let largest = Clock {
        epoch_secs: 7,
        instant_nanos: u64::MAX,
    };
    assert_eq!(Clock::from_readings(7, u64::MAX as u128), largest);
    assert_eq!(Clock::from_readings(7, u64::MAX as u128 + 1), largest);
}

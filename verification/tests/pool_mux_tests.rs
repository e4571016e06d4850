use std::sync::Arc;

use telemt::ip::IpAddr;
use telemt::me_plan::mux_for;
use telemt::pool_mux::{canonicalize_ip, shard_index_for, MePoolMux};

fn v4(a: u8, b: u8, c: u8, d: u8) -> IpAddr {
    IpAddr::from_octets(a, b, c, d)
}

#[test]
fn single_shard_always_returns_zero() {
    assert_eq!(shard_index_for(v4(1, 2, 3, 4), 1), 0);
    assert_eq!(shard_index_for(v4(255, 255, 255, 255), 1), 0);
    // Degenerate zero-shard case — caller should never invoke this in
    // production but the helper must not panic.
    assert_eq!(shard_index_for(v4(1, 2, 3, 4), 0), 0);
}

#[test]
fn shard_index_is_deterministic() {
    let peer = v4(45, 144, 53, 36);
    let a = shard_index_for(peer, 6);
    for _ in 0..50 {
        assert_eq!(shard_index_for(peer, 6), a);
    }
}

#[test]
fn shard_index_spreads_across_shards() {
    let n = 6;
    let mut counts = [0u32; 6];
    for i in 0u32..3000 {
        let peer = v4((i >> 24) as u8, (i >> 16) as u8, (i >> 8) as u8, i as u8);
        counts[shard_index_for(peer, n)] += 1;
    }
    // Uniform expectation 500 / shard, allow generous slack for hash skew.
    for (idx, c) in counts.iter().enumerate() {
        assert!(
            *c >= 250 && *c <= 750,
            "shard {} got {} out of 3000 (expected 250..750)",
            idx,
            c
        );
    }
}

#[test]
fn v4_mapped_v6_canonicalizes_to_same_shard_as_v4() {
    let n = 4;
    let plain = v4(10, 0, 0, 1);
    let v4_mapped = IpAddr::from_groups([0, 0, 0, 0, 0, 0xffff, 0x0a00, 0x0001]);
    assert_eq!(shard_index_for(plain, n), shard_index_for(v4_mapped, n));
    assert_eq!(canonicalize_ip(v4_mapped), plain);
}

#[test]
fn only_mapped_addresses_are_canonicalized() {
    let compatible = IpAddr::from_groups([0, 0, 0, 0, 0, 0, 0x0a00, 0x0001]);
    assert_eq!(canonicalize_ip(compatible), compatible);
    let other = IpAddr::from_groups([1, 0, 0, 0, 0, 0xffff, 0x0a00, 0x0001]);
    assert_eq!(canonicalize_ip(other), other);
    assert_eq!(canonicalize_ip(v4(9, 8, 7, 6)), v4(9, 8, 7, 6));
}

#[test]
fn mux_routes_every_peer_to_one_of_its_pools() {
    let pools: Vec<Arc<u32>> = (0..5).map(Arc::new).collect();
    let binds: Vec<Option<IpAddr>> = (0..5).map(|i| Some(v4(192, 0, 2, i))).collect();
    let mux = MePoolMux::from_shards(pools.clone(), binds.clone());
    assert_eq!(mux.shard_count(), 5);
    assert_eq!(mux.shards().len(), 5);
    assert_eq!(mux.bind_addrs(), binds.as_slice());
    assert_eq!(**mux.primary(), 0);
    assert_eq!(**mux.shard(3), 3);
    let copy = mux.clone();
    for i in 0..200u32 {
        let peer = IpAddr::V4(i);
        let idx = shard_index_for(peer, 5);
        assert!(Arc::ptr_eq(mux.shard_for_peer(peer), &pools[idx]));
        assert!(Arc::ptr_eq(copy.shard_for_peer(peer), &pools[idx]));
    }
}

#[test]
fn single_pool_has_no_source_address() {
    let mux = MePoolMux::from_single(Arc::new("pool"));
    assert_eq!(mux.shard_count(), 1);
    assert_eq!(mux.bind_addrs(), &[None]);
    assert_eq!(**mux.shard_for_peer(v4(1, 2, 3, 4)), "pool");

    let mux = mux_for(vec![Arc::new(7)], vec![None]);
    assert_eq!(mux.bind_addrs(), &[None]);
    assert_eq!(**mux.primary(), 7);

    let sources = vec![Some(v4(1, 1, 1, 1)), Some(v4(2, 2, 2, 2))];
    let mux = mux_for(vec![Arc::new(1), Arc::new(2)], sources.clone());
    assert_eq!(mux.bind_addrs(), sources.as_slice());
    assert_eq!(mux.shard_count(), 2);
}

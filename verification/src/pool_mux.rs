//! Routing of clients to pools, one pool per source address.

use vstd::prelude::*;
use std::sync::Arc;

use crate::hashing::{hash_ip, ip_hash};
use crate::ip::IpAddr;

verus! {

/// An IPv4 address in the IPv4-mapped range of IPv6.
pub open spec fn mapped_v4(v6: u128) -> Option<u32> {
    if v6 / 0x1_0000_0000 == 0xffff {
        Some((v6 % 0x1_0000_0000) as u32)
    } else {
        None
    }
}

/// The address a client is routed by: an IPv4-mapped address stands for the
/// IPv4 address it holds.
pub open spec fn canonical(ip: IpAddr) -> IpAddr {
    match ip {
        IpAddr::V6(v6) => match mapped_v4(v6) {
            Some(v4) => IpAddr::V4(v4),
            None => ip,
        },
        IpAddr::V4(_) => ip,
    }
}

/// The address a client is routed by.
pub fn canonicalize_ip(ip: IpAddr) -> (res: IpAddr)
    ensures
        res == canonical(ip),
{
    match ip {
        IpAddr::V6(v6) => {
            if v6 / 0x1_0000_0000 == 0xffff {
                IpAddr::V4((v6 % 0x1_0000_0000) as u32)
            } else {
                ip
            }
        },
        IpAddr::V4(_) => ip,
    }
}

/// The shard out of `n` that serves a client.
pub open spec fn peer_shard(peer_ip: IpAddr, n: nat) -> nat {
    if n <= 1 {
        0
    } else {
        (ip_hash(canonical(peer_ip)) as usize) as nat % n
    }
}

/// Finds the shard out of `n` that serves a client; the first where there are
/// no two to choose from.
pub fn shard_index_for(peer_ip: IpAddr, n: usize) -> (res: usize)
    ensures
        res == peer_shard(peer_ip, n as nat),
        n >= 1 ==> res < n,
{
    if n <= 1 {
        return 0;
    }
    let key = canonicalize_ip(peer_ip);
    (hash_ip(key) as usize) % n
}

/// A client has the same shard on an IPv4 address and on its IPv4-mapped form.
pub proof fn lemma_mapped_address_keeps_shard(v4: u32, n: nat)
    ensures
        peer_shard(IpAddr::V6((0xffff_0000_0000 + v4) as u128), n) == peer_shard(IpAddr::V4(v4), n),
{
    let v6 = (0xffff_0000_0000 + v4) as u128;
    assert(v6 / 0x1_0000_0000 == 0xffff);
    assert(v6 % 0x1_0000_0000 == v4);
}

/// A single shard serves every client.
pub proof fn lemma_single_shard_serves_all(peer_ip: IpAddr)
    ensures
        peer_shard(peer_ip, 1) == 0,
{
}

/// Every client has a shard.
pub proof fn lemma_peer_shard_in_range(peer_ip: IpAddr, n: nat)
    requires
        n >= 1,
    ensures
        peer_shard(peer_ip, n) < n,
{
}

/// The canonical form of an address is its own canonical form.
pub proof fn lemma_canonical_idempotent(ip: IpAddr)
    ensures
        canonical(canonical(ip)) == canonical(ip),
{
}

struct MePoolMuxInner<P> {
    /// The pools; at least one.
    shards: Vec<Arc<P>>,
    /// The source address of each pool, if it has one of its own.
    bind_addrs: Vec<Option<IpAddr>>,
}

/// A choice of pools, each with its own source address, among which clients
/// are divided by address.
pub struct MePoolMux<P> {
    inner: Arc<MePoolMuxInner<P>>,
}

/// Makes another handle to a shared value with `std::sync::Arc::clone`, which
/// gives a pointer to the same value.
#[verifier::external_body]
fn share<P>(inner: &Arc<MePoolMuxInner<P>>) -> (res: Arc<MePoolMuxInner<P>>)
    ensures
        res == *inner,
{
    Arc::clone(inner)
}

impl<P> MePoolMux<P> {
    /// There is at least one pool, and a source address or none for each.
    #[verifier::type_invariant]
    spec fn wf(&self) -> bool {
        &&& self.inner.shards.len() >= 1
        &&& self.inner.shards.len() == self.inner.bind_addrs.len()
    }

    /// The pools, in order.
    pub closed spec fn pools(&self) -> Seq<Arc<P>> {
        self.inner.shards@
    }

    /// The source address of each pool, if it has one of its own.
    pub closed spec fn sources(&self) -> Seq<Option<IpAddr>> {
        self.inner.bind_addrs@
    }

    /// Divides clients among the given pools.
    pub fn from_shards(shards: Vec<Arc<P>>, bind_addrs: Vec<Option<IpAddr>>) -> (res: Self)
        requires
            shards.len() >= 1,
            shards.len() == bind_addrs.len(),
        ensures
            res.pools() == shards@,
            res.sources() == bind_addrs@,
    {
        MePoolMux { inner: Arc::new(MePoolMuxInner { shards, bind_addrs }) }
    }

    /// Sends every client to one pool.
    pub fn from_single(pool: Arc<P>) -> (res: Self)
        ensures
            res.pools() == seq![pool],
            res.sources() == seq![None::<IpAddr>],
    {
        let res = Self::from_shards(vec![pool], vec![None]);
        assert(res.pools() =~= seq![pool]);
        assert(res.sources() =~= seq![None::<IpAddr>]);
        res
    }

    /// Number of pools; at least one.
    pub fn shard_count(&self) -> (res: usize)
        ensures
            res == self.pools().len(),
            res == self.sources().len(),
            res >= 1,
    {
        proof {
            use_type_invariant(self);
        }
        self.inner.shards.len()
    }

    /// The pools, in order.
    pub fn shards(&self) -> (res: &[Arc<P>])
        ensures
            res@ == self.pools(),
    {
        self.inner.shards.as_slice()
    }

    /// The source address of each pool, in the order of the pools.
    pub fn bind_addrs(&self) -> (res: &[Option<IpAddr>])
        ensures
            res@ == self.sources(),
    {
        self.inner.bind_addrs.as_slice()
    }

    /// The pool that serves a client. A client always has the same one.
    pub fn shard_for_peer(&self, peer_ip: IpAddr) -> (res: &Arc<P>)
        ensures
            *res == self.pools()[peer_shard(peer_ip, self.pools().len()) as int],
            peer_shard(peer_ip, self.pools().len()) < self.pools().len(),
    {
        proof {
            use_type_invariant(self);
        }
        let idx = shard_index_for(peer_ip, self.inner.shards.len());
        &self.inner.shards[idx]
    }

    /// The pool at a position.
    pub fn shard(&self, idx: usize) -> (res: &Arc<P>)
        requires
            idx < self.pools().len(),
        ensures
            *res == self.pools()[idx as int],
    {
        &self.inner.shards[idx]
    }

    /// The first pool.
    pub fn primary(&self) -> (res: &Arc<P>)
        ensures
            *res == self.pools()[0],
            self.pools().len() >= 1,
    {
        proof {
            use_type_invariant(self);
        }
        &self.inner.shards[0]
    }
}

impl<P> Clone for MePoolMux<P> {
    /// Another handle to the same pools.
    fn clone(&self) -> (res: Self)
        ensures
            res == *self,
    {
        proof {
            use_type_invariant(self);
        }
        MePoolMux { inner: share(&self.inner) }
    }
}

} // verus!

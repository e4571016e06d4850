//! What the choices that go by a hash depend on, down to the hashed bytes.

use vstd::arithmetic::power2::{lemma_pow2_unfold, pow2};
use vstd::bits::{lemma_u64_low_bits_mask_is_mod, low_bits_mask};
use vstd::prelude::*;
use vstd::std_specs::hash::DefaultHasherAdditionalSpecFns;
use vstd::utf8::encode_utf8;
use std::collections::hash_map::DefaultHasher;

use crate::alpn::{
    alpn_choice, byte_views, first_offered, le_bytes, lemma_first_offered, profile_index,
    profile_views, time_bucket,
};
use crate::hashing::{be_bytes, ip_hash, text_hash};
use crate::ip::IpAddr;
use crate::ip_shard::{
    home_shard, is_power_of_two, is_rounded_up, lemma_home_shard_in_range, power_of_two,
};
use crate::pool_mux::{canonical, peer_shard};

verus! {

/// The number that bytes spell, most significant first.
pub open spec fn big_endian(bytes: Seq<u8>) -> nat
    decreases bytes.len(),
{
    if bytes.len() == 0 {
        0
    } else {
        256 * big_endian(bytes.drop_last()) + bytes.last() as nat
    }
}

/// The number that bytes spell, least significant first.
pub open spec fn little_endian(bytes: Seq<u8>) -> nat
    decreases bytes.len(),
{
    if bytes.len() == 0 {
        0
    } else {
        bytes[0] as nat + 256 * little_endian(bytes.drop_first())
    }
}

proof fn lemma_be_bytes(bytes: Seq<u8>)
    ensures
        be_bytes(big_endian(bytes), bytes.len()) == bytes,
    decreases bytes.len(),
{
    if bytes.len() > 0 {
        lemma_be_bytes(bytes.drop_last());
        assert(big_endian(bytes) / 256 == big_endian(bytes.drop_last()));
        assert(big_endian(bytes) % 256 == bytes.last());
        assert(be_bytes(big_endian(bytes), bytes.len()) =~= bytes);
    } else {
        assert(be_bytes(big_endian(bytes), bytes.len()) =~= bytes);
    }
}

proof fn lemma_le_bytes(bytes: Seq<u8>)
    ensures
        le_bytes(little_endian(bytes), bytes.len()) == bytes,
    decreases bytes.len(),
{
    if bytes.len() > 0 {
        lemma_le_bytes(bytes.drop_first());
        assert(little_endian(bytes) / 256 == little_endian(bytes.drop_first()));
        assert(little_endian(bytes) % 256 == bytes[0]);
    }
    assert(le_bytes(little_endian(bytes), bytes.len()) =~= bytes);
}

/// The hash of an IPv4 address is that of eight zero bytes, then of its four
/// octets in network order.
pub proof fn lemma_v4_hash(value: u32, octets: Seq<u8>)
    requires
        octets.len() == 4,
        big_endian(octets) == value,
    ensures
        ip_hash(IpAddr::V4(value)) == DefaultHasher::spec_finish(
            seq![seq![0u8, 0u8, 0u8, 0u8, 0u8, 0u8, 0u8, 0u8], octets],
        ),
{
    lemma_be_bytes(octets);
}

/// The hash of an IPv6 address is that of a one and seven zero bytes, then of its
/// sixteen octets in network order.
pub proof fn lemma_v6_hash(value: u128, octets: Seq<u8>)
    requires
        octets.len() == 16,
        big_endian(octets) == value,
    ensures
        ip_hash(IpAddr::V6(value)) == DefaultHasher::spec_finish(
            seq![seq![1u8, 0u8, 0u8, 0u8, 0u8, 0u8, 0u8, 0u8], octets],
        ),
{
    lemma_be_bytes(octets);
}

/// The hash of a text is that of its UTF-8 bytes, then of a byte that occurs in
/// no text.
pub proof fn lemma_text_hash(text: Seq<char>)
    ensures
        text_hash(text) == DefaultHasher::spec_finish(seq![encode_utf8(text), seq![0xffu8]]),
{
}

/// The address that a client is known by: the IPv6 addresses from
/// `::ffff:0.0.0.0` to `::ffff:255.255.255.255` stand for all IPv4 addresses, in
/// order, and every other address for itself.
pub open spec fn known_as(ip: IpAddr) -> IpAddr {
    match ip {
        IpAddr::V6(v) => if 0xffff_0000_0000 <= v <= 0xffff_ffff_ffff {
            IpAddr::V4((v - 0xffff_0000_0000) as u32)
        } else {
            ip
        },
        IpAddr::V4(_) => ip,
    }
}

/// The canonical form of an address is what it is known by.
pub proof fn lemma_canonical_by_value(ip: IpAddr)
    ensures
        canonical(ip) == known_as(ip),
{
    if let IpAddr::V6(v) = ip {
        assert(v / 0x1_0000_0000 == 0xffff <==> 0xffff_0000_0000 <= v <= 0xffff_ffff_ffff);
    }
}

/// With at least two pools, the position of a client's pool is congruent to the
/// hash of the address that it is known by, modulo the number of pools.
pub proof fn lemma_pool_is_congruent_to_hash(peer_ip: IpAddr, n: nat)
    requires
        n >= 2,
    ensures
        peer_shard(peer_ip, n) < n,
        (ip_hash(known_as(peer_ip)) as usize as int - peer_shard(peer_ip, n) as int) % (n as int)
            == 0,
{
    lemma_canonical_by_value(peer_ip);
    let hash = ip_hash(known_as(peer_ip)) as usize as int;
    lemma_less_remainder(hash, n as int);
}

proof fn lemma_less_remainder(a: int, n: int)
    requires
        n >= 1,
    ensures
        0 <= a % n < n,
        (a - a % n) % n == 0,
{
    vstd::arithmetic::div_mod::lemma_fundamental_div_mod(a, n);
    vstd::arithmetic::div_mod::lemma_mod_bound(a, n);
    assert(a - a % n == n * (a / n));
    vstd::arithmetic::mul::lemma_mul_is_commutative(n, a / n);
    vstd::arithmetic::div_mod::lemma_mod_multiples_basic(a / n, n);
}

proof fn lemma_same_remainder(a: int, b: int, n: int)
    requires
        n >= 1,
    ensures
        a % n == b % n <==> (a - b) % n == 0,
{
    vstd::arithmetic::div_mod::lemma_mod_equivalence(a, b, n);
}

/// With at least two pools, two clients have the same pool exactly when the
/// hashes of the addresses that they are known by are congruent modulo the number
/// of pools.
pub proof fn lemma_same_pool(a: IpAddr, b: IpAddr, n: nat)
    requires
        n >= 2,
    ensures
        peer_shard(a, n) == peer_shard(b, n) <==> (ip_hash(known_as(a)) as usize as int - ip_hash(
            known_as(b),
        ) as usize as int) % (n as int) == 0,
{
    lemma_canonical_by_value(a);
    lemma_canonical_by_value(b);
    lemma_same_remainder(
        ip_hash(known_as(a)) as usize as int,
        ip_hash(known_as(b)) as usize as int,
        n as int,
    );
}

/// With at least two pools, a pool serves exactly the clients whose hash is
/// congruent to its position, so no pool is left out if the hash takes every
/// residue.
pub proof fn lemma_pool_serves_its_residue(n: nat, position: nat)
    requires
        n >= 2,
        position < n,
    ensures
        forall|peer_ip: IpAddr| #[trigger]
            peer_shard(peer_ip, n) == position <==> (ip_hash(known_as(peer_ip)) as usize as int
                - position as int) % (n as int) == 0,
        (exists|peer_ip: IpAddr|
            ((#[trigger] ip_hash(known_as(peer_ip))) as usize as int - position as int) % (
            n as int) == 0) ==> exists|peer_ip: IpAddr| #[trigger]
            peer_shard(peer_ip, n) == position,
{
    assert forall|peer_ip: IpAddr| #[trigger]
        peer_shard(peer_ip, n) == position <==> (ip_hash(known_as(peer_ip)) as usize as int
            - position as int) % (n as int) == 0 by {
        lemma_canonical_by_value(peer_ip);
        lemma_same_remainder(
            ip_hash(known_as(peer_ip)) as usize as int,
            position as int,
            n as int,
        );
        vstd::arithmetic::div_mod::lemma_small_mod(position, n);
    }
    if exists|peer_ip: IpAddr|
        ((#[trigger] ip_hash(known_as(peer_ip))) as usize as int - position as int) % (n as int)
            == 0 {
        let peer_ip = choose|peer_ip: IpAddr|
            ((#[trigger] ip_hash(known_as(peer_ip))) as usize as int - position as int) % (
            n as int) == 0;
        assert(peer_shard(peer_ip, n) == position);
    }
}

/// With one pool or none, every client has position zero.
pub proof fn lemma_one_pool(peer_ip: IpAddr, n: nat)
    requires
        n <= 1,
    ensures
        peer_shard(peer_ip, n) == 0,
{
}

/// The powers that counts are rounded up to are vstd's powers of two.
pub proof fn lemma_power_of_two(n: nat)
    ensures
        power_of_two(n) == pow2(n),
        power_of_two(n) >= 1,
    decreases n,
{
    if n == 0 {
        vstd::arithmetic::power2::lemma2_to64();
    } else {
        lemma_power_of_two((n - 1) as nat);
        lemma_pow2_unfold(n);
    }
}

/// A positive number is rounded up to a power of two that is less than twice as
/// large.
pub proof fn lemma_rounding(value: nat, least: nat)
    requires
        least >= 1,
        is_rounded_up(value, least),
    ensures
        least <= value < 2 * least,
        exists|n: nat| value == #[trigger] pow2(n),
{
    let n = choose|n: nat| #[trigger] power_of_two(n) == value;
    lemma_power_of_two(n);
    assert(value == pow2(n));
    if n > 0 {
        let half = power_of_two((n - 1) as nat);
        lemma_power_of_two((n - 1) as nat);
        assert(power_of_two(n) == 2 * half);
        if half >= least {
            assert(half >= value);
        }
    }
}

/// Numbers are rounded up to one value only.
pub proof fn lemma_rounding_is_a_function(a: nat, b: nat, least: nat)
    requires
        is_rounded_up(a, least),
        is_rounded_up(b, least),
    ensures
        a == b,
{
    let i = choose|n: nat| #[trigger] power_of_two(n) == a;
    let j = choose|n: nat| #[trigger] power_of_two(n) == b;
    assert(power_of_two(i) >= b);
    assert(power_of_two(j) >= a);
}

/// A number turned by seven bits to the left.
pub open spec fn turned(hash: u64) -> u64 {
    ((hash * 128) % 0x1_0000_0000_0000_0000 + hash / 0x200_0000_0000_0000) as u64
}

/// The shard of a pair is the remainder, modulo the number of shards, of the hash
/// of the user combined with the turned hash of the address.
#[verifier::rlimit(40)]
pub proof fn lemma_home_is_remainder(user: Seq<char>, ip: IpAddr, shards: nat)
    requires
        1 <= shards <= 1024,
        is_power_of_two(shards),
    ensures
        home_shard(user, ip, (shards - 1) as usize) < shards,
        home_shard(user, ip, (shards - 1) as usize) as nat == ((text_hash(user) ^ turned(
            ip_hash(ip),
        )) as usize) as nat % shards,
{
    let n = choose|n: nat| #[trigger] power_of_two(n) == shards;
    lemma_power_of_two(n);
    let mask = (shards - 1) as usize;
    let hash = ip_hash(ip);
    assert(((hash << 7) | (hash >> 57)) == ((hash * 128) % 0x1_0000_0000_0000_0000 + hash
        / 0x200_0000_0000_0000)) by (bit_vector);
    let wide = (text_hash(user) ^ turned(hash)) as usize;
    lemma_home_shard_in_range(user, ip, mask);
    assert(home_shard(user, ip, mask) == wide & mask);
    assert(n < 64) by {
        if n >= 11 {
            vstd::arithmetic::power2::lemma2_to64();
            if n > 11 {
                vstd::arithmetic::power2::lemma_pow2_strictly_increases(11, n);
            }
        }
    }
    lemma_u64_low_bits_mask_is_mod(wide as u64, n);
    assert(low_bits_mask(n) == shards - 1);
    assert((wide as u64) & (mask as u64) == (wide as u64) % (shards as u64));
}

/// Time is cut into slices of the given length, counted from the epoch; without a
/// length there is one slice.
pub proof fn lemma_time_slices(epoch_secs: u64, bucket_secs: u64)
    ensures
        bucket_secs == 0 ==> time_bucket(epoch_secs, bucket_secs) == 0,
        bucket_secs > 0 ==> time_bucket(epoch_secs, bucket_secs) * bucket_secs <= epoch_secs < (
        time_bucket(epoch_secs, bucket_secs) + 1) * bucket_secs,
{
    if bucket_secs > 0 {
        let q = epoch_secs as int / bucket_secs as int;
        vstd::arithmetic::div_mod::lemma_fundamental_div_mod(epoch_secs as int, bucket_secs as int);
        vstd::arithmetic::div_mod::lemma_mod_bound(epoch_secs as int, bucket_secs as int);
        vstd::arithmetic::mul::lemma_mul_is_commutative(bucket_secs as int, q);
        vstd::arithmetic::mul::lemma_mul_is_distributive_add_other_way(
            bucket_secs as int,
            q,
            1,
        );
    }
}

/// The position of the profile for a server name is congruent, modulo the number
/// of profiles, to the hash of the bytes of the name, of a byte that occurs in no
/// name, and of the eight bytes that spell the time slice, the least significant
/// first. A missing name counts as an empty one.
pub proof fn lemma_profile_is_congruent_to_hash(
    sni: Option<Seq<char>>,
    bucket: u64,
    slice: Seq<u8>,
    n: nat,
)
    requires
        n >= 1,
        slice.len() == 8,
        little_endian(slice) == bucket,
    ensures
        profile_index(sni, bucket, n) < n,
        ({
            let name = match sni {
                Some(name) => encode_utf8(name),
                None => Seq::empty(),
            };
            let hash = DefaultHasher::spec_finish(seq![name, seq![0xffu8], slice]);
            (hash as usize as int - profile_index(sni, bucket, n) as int) % (n as int) == 0
        }),
{
    lemma_le_bytes(slice);
    let name = match sni {
        Some(name) => encode_utf8(name),
        None => Seq::empty(),
    };
    if sni is None {
        assert(encode_utf8(Seq::empty()) =~= Seq::empty());
    }
    let hash = DefaultHasher::spec_finish(seq![name, seq![0xffu8], slice]);
    lemma_less_remainder(hash as usize as int, n as int);
}

/// Protocols are compared by the bytes of their names.
pub proof fn lemma_protocols_by_bytes(
    client: Seq<Vec<u8>>,
    profiles: Seq<Vec<String>>,
    i: int,
    k: int,
)
    ensures
        byte_views(client).len() == client.len(),
        0 <= i < client.len() ==> byte_views(client)[i] == client[i]@,
        profile_views(profiles).len() == profiles.len(),
        0 <= i < profiles.len() ==> profile_views(profiles)[i].len() == profiles[i]@.len(),
        0 <= i < profiles.len() && 0 <= k < profiles[i]@.len() ==> profile_views(profiles)[i][k]
            == encode_utf8(profiles[i]@[k]@),
{
}

/// What is answered is the first protocol of the chosen profile that the client
/// offers, and nothing is answered only if the client offers none of them or
/// there are no profiles.
pub proof fn lemma_alpn_answer(
    client: Seq<Seq<u8>>,
    sni: Option<Seq<char>>,
    profiles: Seq<Seq<Seq<u8>>>,
    bucket: u64,
)
    ensures
        profiles.len() == 0 ==> alpn_choice(client, sni, profiles, bucket) is None,
        profiles.len() > 0 ==> {
            let profile = profiles[profile_index(sni, bucket, profiles.len()) as int];
            match alpn_choice(client, sni, profiles, bucket) {
                Some(answer) => exists|i: int|
                    {
                        &&& 0 <= i < profile.len()
                        &&& #[trigger] profile[i] == answer
                        &&& client.contains(answer)
                        &&& forall|j: int| 0 <= j < i ==> !client.contains(#[trigger] profile[j])
                    },
                None => forall|j: int|
                    0 <= j < profile.len() ==> !client.contains(#[trigger] profile[j]),
            }
        },
{
    if profiles.len() > 0 {
        let profile = profiles[profile_index(sni, bucket, profiles.len()) as int];
        lemma_first_offered(profile, client);
        if client.len() > 0 {
            assert(alpn_choice(client, sni, profiles, bucket) == first_offered(profile, client));
        }
    }
}

} // verus!

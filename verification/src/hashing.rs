//! Stable hashes of users, addresses and server names.

use vstd::prelude::*;
use vstd::std_specs::hash::DefaultHasherAdditionalSpecFns;
use vstd::string::*;
use vstd::utf8::encode_utf8;
use std::collections::hash_map::DefaultHasher;
use std::hash::Hasher;

use crate::ip::IpAddr;

verus! {

/// The low `count` bytes of a number, most significant first.
pub open spec fn be_bytes(value: nat, count: nat) -> Seq<u8>
    decreases count,
{
    if count == 0 {
        Seq::empty()
    } else {
        be_bytes(value / 256, (count - 1) as nat).push((value % 256) as u8)
    }
}

/// The bytes that end a hashed text, so that texts cannot run into what follows.
pub open spec fn text_end() -> Seq<u8> {
    seq![0xffu8]
}

/// The bytes that mark the family of a hashed address: a little-endian word,
/// zero for IPv4 and one for IPv6.
pub open spec fn family_mark(ip: IpAddr) -> Seq<u8> {
    match ip {
        IpAddr::V4(_) => seq![0u8, 0u8, 0u8, 0u8, 0u8, 0u8, 0u8, 0u8],
        IpAddr::V6(_) => seq![1u8, 0u8, 0u8, 0u8, 0u8, 0u8, 0u8, 0u8],
    }
}

/// The octets of an address in network order.
pub open spec fn octets(ip: IpAddr) -> Seq<u8> {
    match ip {
        IpAddr::V4(v) => be_bytes(v as nat, 4),
        IpAddr::V6(v) => be_bytes(v as nat, 16),
    }
}

/// The hash of a text.
pub open spec fn text_hash(text: Seq<char>) -> u64 {
    DefaultHasher::spec_finish(seq![encode_utf8(text), text_end()])
}

/// The hash of an address.
pub open spec fn ip_hash(ip: IpAddr) -> u64 {
    DefaultHasher::spec_finish(seq![family_mark(ip), octets(ip)])
}

fn to_be_bytes(value: u128, count: u8) -> (res: Vec<u8>)
    ensures
        res@ == be_bytes(value as nat, count as nat),
    decreases count,
{
    if count == 0 {
        Vec::new()
    } else {
        let mut res = to_be_bytes(value / 256, count - 1);
        res.push((value % 256) as u8);
        res
    }
}

/// Hashes a text.
pub fn hash_text(text: &str) -> (res: u64)
    ensures
        res == text_hash(text@),
{
    let mut hasher = DefaultHasher::new();
    hasher.write(text.as_bytes());
    hasher.write(&[0xffu8]);
    assert(hasher@ =~~= seq![encode_utf8(text@), text_end()]);
    hasher.finish()
}

/// Hashes an address.
pub fn hash_ip(ip: IpAddr) -> (res: u64)
    ensures
        res == ip_hash(ip),
{
    let mut hasher = DefaultHasher::new();
    match ip {
        IpAddr::V4(v) => {
            hasher.write(&[0u8, 0u8, 0u8, 0u8, 0u8, 0u8, 0u8, 0u8]);
            let bytes = to_be_bytes(v as u128, 4);
            hasher.write(bytes.as_slice());
        },
        IpAddr::V6(v) => {
            hasher.write(&[1u8, 0u8, 0u8, 0u8, 0u8, 0u8, 0u8, 0u8]);
            let bytes = to_be_bytes(v, 16);
            hasher.write(bytes.as_slice());
        },
    }
    assert(hasher@ =~~= seq![family_mark(ip), octets(ip)]);
    hasher.finish()
}

} // verus!

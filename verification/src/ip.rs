//! IP addresses as plain integers.

use vstd::prelude::*;

verus! {

/// An IPv4 or IPv6 address, held as the integer its octets spell in network order.
#[derive(Clone, Copy, Debug, PartialEq, Eq, Structural, Hash)]
pub enum IpAddr {
    V4(u32),
    V6(u128),
}

/// The integer spelled by four octets, most significant first.
pub open spec fn join_octets(a: u8, b: u8, c: u8, d: u8) -> nat {
    (((a as nat * 256 + b as nat) * 256 + c as nat) * 256 + d as nat) as nat
}

/// The integer spelled by a sequence of 16-bit groups, most significant first.
pub open spec fn join_groups(groups: Seq<u16>) -> nat
    decreases groups.len(),
{
    if groups.len() == 0 {
        0
    } else {
        join_groups(groups.drop_last()) * 0x1_0000 + groups.last() as nat
    }
}

/// How many values `n` groups can spell.
pub open spec fn group_power(n: nat) -> nat
    decreases n,
{
    if n == 0 {
        1
    } else {
        0x1_0000 * group_power((n - 1) as nat)
    }
}

pub proof fn lemma_join_groups_bound(groups: Seq<u16>)
    ensures
        join_groups(groups) < group_power(groups.len()),
    decreases groups.len(),
{
    if groups.len() > 0 {
        lemma_join_groups_bound(groups.drop_last());
    }
}

/// Seven groups leave room for one more in 128 bits.
pub proof fn lemma_group_power(n: nat)
    requires
        n <= 8,
    ensures
        group_power(n) <= 0x1_0000_0000_0000_0000_0000_0000_0000_0000,
        n <= 7 ==> group_power(n) <= 0x1_0000_0000_0000_0000_0000_0000_0000,
{
    reveal_with_fuel(group_power, 9);
}

impl IpAddr {
    /// Strict order of addresses: every IPv4 address comes before every IPv6
    /// address, and addresses of one family are ordered as integers.
    pub open spec fn before(self, other: IpAddr) -> bool {
        match (self, other) {
            (IpAddr::V4(a), IpAddr::V4(b)) => a < b,
            (IpAddr::V4(_), IpAddr::V6(_)) => true,
            (IpAddr::V6(_), IpAddr::V4(_)) => false,
            (IpAddr::V6(a), IpAddr::V6(b)) => a < b,
        }
    }

    /// Whether `self` comes strictly before `other`.
    pub fn is_before(&self, other: &IpAddr) -> (res: bool)
        ensures
            res == self.before(*other),
    {
        match (*self, *other) {
            (IpAddr::V4(a), IpAddr::V4(b)) => a < b,
            (IpAddr::V4(_), IpAddr::V6(_)) => true,
            (IpAddr::V6(_), IpAddr::V4(_)) => false,
            (IpAddr::V6(a), IpAddr::V6(b)) => a < b,
        }
    }

    /// The IPv4 address `a.b.c.d`.
    pub fn from_octets(a: u8, b: u8, c: u8, d: u8) -> (res: IpAddr)
        ensures
            res == IpAddr::V4(join_octets(a, b, c, d) as u32),
            join_octets(a, b, c, d) <= u32::MAX,
    {
        IpAddr::V4(((a as u32 * 256 + b as u32) * 256 + c as u32) * 256 + d as u32)
    }

    /// The IPv6 address with the given eight groups.
    pub fn from_groups(groups: [u16; 8]) -> (res: IpAddr)
        ensures
            res == IpAddr::V6(join_groups(groups@) as u128),
            join_groups(groups@) <= u128::MAX,
    {
        IpAddr::V6(join(groups.as_slice()))
    }
}

/// The integer spelled by at most eight groups, most significant first.
pub fn join(groups: &[u16]) -> (res: u128)
    requires
        groups@.len() <= 8,
    ensures
        res == join_groups(groups@),
{
    let mut value: u128 = 0;
    let mut i: usize = 0;
    assert(groups@.take(0) =~= Seq::<u16>::empty());
    while i < groups.len()
        invariant
            i <= groups@.len() <= 8,
            value == join_groups(groups@.take(i as int)),
        decreases groups@.len() - i,
    {
        proof {
            assert(groups@.take(i + 1).drop_last() =~= groups@.take(i as int));
            lemma_join_groups_bound(groups@.take(i as int));
            lemma_group_power(i as nat);
        }
        value = value * 0x1_0000 + groups[i] as u128;
        i += 1;
    }
    assert(groups@.take(i as int) =~= groups@);
    value
}

/// The order of addresses is total and strict.
pub proof fn lemma_before_total(a: IpAddr, b: IpAddr)
    ensures
        a.before(b) || a == b || b.before(a),
        !(a.before(b) && b.before(a)),
        !a.before(a),
{
}

} // verus!

//! Addresses written as text.

use vstd::prelude::*;
use vstd::string::*;

use crate::ip::{group_power, join_groups, IpAddr};
use crate::pool_mux::mapped_v4;
use crate::text::{numeral, push_number};

verus! {

/// The octet of an IPv4 address at `i`, most significant first.
pub open spec fn octet_at(v4: u32, i: int) -> nat {
    if i == 0 {
        v4 as nat / 0x100_0000
    } else if i == 1 {
        v4 as nat / 0x1_0000 % 0x100
    } else if i == 2 {
        v4 as nat / 0x100 % 0x100
    } else {
        v4 as nat % 0x100
    }
}

/// Dotted decimal.
pub open spec fn v4_text(v4: u32) -> Seq<char> {
    numeral(octet_at(v4, 0), 10) + "."@ + numeral(octet_at(v4, 1), 10) + "."@ + numeral(
        octet_at(v4, 2),
        10,
    ) + "."@ + numeral(octet_at(v4, 3), 10)
}

/// The last `n` groups of a number, most significant first.
pub open spec fn groups_of(value: nat, n: nat) -> Seq<u16>
    decreases n,
{
    if n == 0 {
        Seq::empty()
    } else {
        groups_of(value / 0x1_0000, (n - 1) as nat).push((value % 0x1_0000) as u16)
    }
}

/// Groups in lower-case hexadecimal with colons between them.
pub open spec fn groups_text(groups: Seq<u16>) -> Seq<char>
    decreases groups.len(),
{
    if groups.len() == 0 {
        Seq::empty()
    } else if groups.len() == 1 {
        numeral(groups[0] as nat, 16)
    } else {
        groups_text(groups.drop_last()) + ":"@ + numeral(groups.last() as nat, 16)
    }
}

/// How many zero groups stand from `i` on.
pub open spec fn zero_run(groups: Seq<u16>, i: int) -> nat
    decreases groups.len() - i,
{
    if i < 0 || i >= groups.len() || groups[i] != 0 {
        0
    } else {
        1 + zero_run(groups, i + 1)
    }
}

/// The longest run of zero groups that begins before `n`, and of several the
/// first: where it begins, and its length.
pub open spec fn longest_run(groups: Seq<u16>, n: nat) -> (int, nat)
    decreases n,
{
    if n == 0 {
        (0, 0)
    } else {
        let best = longest_run(groups, (n - 1) as nat);
        let here = zero_run(groups, n - 1);
        if here > best.1 {
            (n - 1, here)
        } else {
            best
        }
    }
}

/// Groups with the longest run of two or more zero groups left out.
pub open spec fn compressed_text(groups: Seq<u16>) -> Seq<char> {
    let (start, len) = longest_run(groups, groups.len());
    if len > 1 {
        groups_text(groups.take(start)) + "::"@ + groups_text(groups.skip(start + len))
    } else {
        groups_text(groups)
    }
}

/// An IPv4-mapped address ends in dotted decimal; any other is compressed.
pub open spec fn v6_text(v6: u128) -> Seq<char> {
    match mapped_v4(v6) {
        Some(v4) => "::ffff:"@ + v4_text(v4),
        None => compressed_text(groups_of(v6 as nat, 8)),
    }
}

/// The text of an address.
pub open spec fn ip_text(ip: IpAddr) -> Seq<char> {
    match ip {
        IpAddr::V4(v4) => v4_text(v4),
        IpAddr::V6(v6) => v6_text(v6),
    }
}

fn push_v4(out: &mut String, v4: u32)
    ensures
        final(out)@ == old(out)@ + v4_text(v4),
{
    let ghost before = out@;
    push_number(out, (v4 / 0x100_0000) as u64, 10);
    out.append(".");
    push_number(out, (v4 / 0x1_0000 % 0x100) as u64, 10);
    out.append(".");
    push_number(out, (v4 / 0x100 % 0x100) as u64, 10);
    out.append(".");
    push_number(out, (v4 % 0x100) as u64, 10);
    assert(out@ =~= before + v4_text(v4));
}

fn split_groups(value: u128, n: u8) -> (res: Vec<u16>)
    ensures
        res@ == groups_of(value as nat, n as nat),
    decreases n,
{
    if n == 0 {
        Vec::new()
    } else {
        let mut res = split_groups(value / 0x1_0000, n - 1);
        res.push((value % 0x1_0000) as u16);
        res
    }
}

/// Appends the groups from `from` to before `to`.
fn push_groups(out: &mut String, groups: &Vec<u16>, from: usize, to: usize)
    requires
        from <= to <= groups.len(),
    ensures
        final(out)@ == old(out)@ + groups_text(groups@.subrange(from as int, to as int)),
{
    let ghost before = out@;
    let mut i: usize = from;
    assert(groups@.subrange(from as int, from as int) =~= Seq::empty());
    assert(out@ =~= before + groups_text(groups@.subrange(from as int, from as int)));
    while i < to
        invariant
            from <= i <= to <= groups.len(),
            out@ == before + groups_text(groups@.subrange(from as int, i as int)),
        decreases to - i,
    {
        let ghost so_far = groups@.subrange(from as int, i as int);
        let ghost longer = groups@.subrange(from as int, i + 1);
        assert(longer.drop_last() =~= so_far);
        assert(longer.last() == groups@[i as int]);
        if i > from {
            out.append(":");
        }
        push_number(out, groups[i] as u64, 16);
        assert(out@ =~= before + groups_text(longer));
        i += 1;
    }
}

fn count_zeros(groups: &Vec<u16>, i: usize) -> (res: usize)
    requires
        i <= groups.len(),
    ensures
        res == zero_run(groups@, i as int),
        res <= groups.len() - i,
    decreases groups.len() - i,
{
    if i >= groups.len() || groups[i] != 0 {
        0
    } else {
        1 + count_zeros(groups, i + 1)
    }
}

fn push_compressed(out: &mut String, groups: &Vec<u16>)
    ensures
        final(out)@ == old(out)@ + compressed_text(groups@),
{
    let ghost before = out@;
    let mut start: usize = 0;
    let mut len: usize = 0;
    let mut i: usize = 0;
    while i < groups.len()
        invariant
            i <= groups.len(),
            longest_run(groups@, i as nat) == (start as int, len as nat),
            start + len <= groups.len(),
        decreases groups.len() - i,
    {
        let here = count_zeros(groups, i);
        if here > len {
            start = i;
            len = here;
        }
        i += 1;
    }
    if len > 1 {
        push_groups(out, groups, 0, start);
        out.append("::");
        push_groups(out, groups, start + len, groups.len());
        assert(groups@.subrange(0, start as int) =~= groups@.take(start as int));
        assert(groups@.subrange(start + len, groups.len() as int) =~= groups@.skip(start + len));
    } else {
        push_groups(out, groups, 0, groups.len());
        assert(groups@.subrange(0, groups.len() as int) =~= groups@);
    }
    assert(out@ =~= before + compressed_text(groups@));
}

/// Appends the text of an address.
pub fn push_ip(out: &mut String, ip: IpAddr)
    ensures
        final(out)@ == old(out)@ + ip_text(ip),
{
    let ghost before = out@;
    match ip {
        IpAddr::V4(v4) => push_v4(out, v4),
        IpAddr::V6(v6) => {
            if v6 / 0x1_0000_0000 == 0xffff {
                out.append("::ffff:");
                push_v4(out, (v6 % 0x1_0000_0000) as u32);
                assert(out@ =~= before + ip_text(ip));
            } else {
                push_compressed(out, &split_groups(v6, 8));
            }
        },
    }
}

/// The text of an address.
pub fn format_ip(ip: IpAddr) -> (res: String)
    ensures
        res@ == ip_text(ip),
{
    let mut out = String::new();
    push_ip(&mut out, ip);
    assert(out@ =~= ip_text(ip));
    out
}

/// Eight groups spell every 128-bit number.
pub proof fn lemma_groups_round_trip(value: nat, n: nat)
    requires
        value < group_power(n),
    ensures
        groups_of(value, n).len() == n,
        join_groups(groups_of(value, n)) == value,
    decreases n,
{
    if n > 0 {
        assert(value / 0x1_0000 < group_power((n - 1) as nat));
        lemma_groups_round_trip(value / 0x1_0000, (n - 1) as nat);
        let shorter = groups_of(value / 0x1_0000, (n - 1) as nat);
        assert(groups_of(value, n).drop_last() =~= shorter);
    }
}

} // verus!

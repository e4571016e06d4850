//! Addresses as text.

use vstd::prelude::*;
use vstd::string::*;

use crate::ip::{join, join_groups, join_octets, IpAddr};
use crate::text::{all_digits, chars_of, digit_of, digit_value, digits_value};

verus! {

/// The pieces of a text between occurrences of a separator.
pub open spec fn split(text: Seq<char>, sep: char) -> Seq<Seq<char>>
    decreases text.len(),
{
    if text.len() == 0 {
        seq![Seq::empty()]
    } else {
        let parts = split(text.drop_last(), sep);
        if text.last() == sep {
            parts.push(Seq::empty())
        } else {
            parts.update(parts.len() - 1, parts.last().push(text.last()))
        }
    }
}

/// An octet in decimal: up to three digits, without a leading zero.
pub open spec fn octet_reading(text: Seq<char>) -> Option<u8> {
    if all_digits(text, 10) && text.len() <= 3 && (text.len() == 1 || text[0] != '0')
        && digits_value(text, 10) <= 255 {
        Some(digits_value(text, 10) as u8)
    } else {
        None
    }
}

/// Four octets with dots between them.
pub open spec fn v4_reading(text: Seq<char>) -> Option<u32> {
    let parts = split(text, '.');
    if parts.len() != 4 {
        None
    } else {
        match (
            octet_reading(parts[0]),
            octet_reading(parts[1]),
            octet_reading(parts[2]),
            octet_reading(parts[3]),
        ) {
            (Some(a), Some(b), Some(c), Some(d)) => Some(join_octets(a, b, c, d) as u32),
            _ => None,
        }
    }
}

/// A group in hexadecimal: up to four digits of either case.
pub open spec fn group_reading(text: Seq<char>) -> Option<u16> {
    if all_digits(text, 16) && text.len() <= 4 {
        Some(digits_value(text, 16) as u16)
    } else {
        None
    }
}

/// The two groups that an IPv4 address takes the place of.
pub open spec fn v4_groups(v4: u32) -> Seq<u16> {
    seq![(v4 / 0x1_0000) as u16, (v4 % 0x1_0000) as u16]
}

/// Groups, of which the last may be written as an IPv4 address if `v4_last`.
pub open spec fn groups_reading(parts: Seq<Seq<char>>, v4_last: bool) -> Option<Seq<u16>>
    decreases parts.len(),
{
    if parts.len() == 0 {
        Some(Seq::empty())
    } else {
        match (
            groups_reading(parts.drop_last(), false),
            group_reading(parts.last()),
            v4_reading(parts.last()),
        ) {
            (Some(groups), Some(group), _) => Some(groups.push(group)),
            (Some(groups), None, Some(v4)) => if v4_last {
                Some(groups + v4_groups(v4))
            } else {
                None
            },
            _ => None,
        }
    }
}

/// Groups with colons between them, or nothing.
pub open spec fn side_reading(text: Seq<char>, v4_last: bool) -> Option<Seq<u16>> {
    if text.len() == 0 {
        Some(Seq::empty())
    } else {
        groups_reading(split(text, ':'), v4_last)
    }
}

/// Whether two colons stand at `i`.
pub open spec fn gap_at(text: Seq<char>, i: int) -> bool {
    0 <= i && i + 1 < text.len() && text[i] == ':' && text[i + 1] == ':'
}

/// Where two colons stand first, from `from` on.
pub open spec fn first_gap(text: Seq<char>, from: int) -> Option<int>
    decreases text.len() - from,
{
    if from < 0 || from + 1 >= text.len() {
        None
    } else if gap_at(text, from) {
        Some(from)
    } else {
        first_gap(text, from + 1)
    }
}

/// A number of zero groups.
pub open spec fn zeros(n: nat) -> Seq<u16> {
    Seq::new(n, |i: int| 0u16)
}

/// Eight groups, or fewer with one pair of colons that stands for the missing
/// zero groups, of which there is at least one.
pub open spec fn v6_reading(text: Seq<char>) -> Option<u128> {
    match first_gap(text, 0) {
        None => match side_reading(text, true) {
            Some(groups) => if groups.len() == 8 {
                Some(join_groups(groups) as u128)
            } else {
                None
            },
            None => None,
        },
        Some(at) => match (
            side_reading(text.take(at), false),
            side_reading(text.skip(at + 2), true),
        ) {
            (Some(head), Some(tail)) => if head.len() + tail.len() <= 7 {
                Some(
                    join_groups(
                        head + zeros((8 - head.len() - tail.len()) as nat) + tail,
                    ) as u128,
                )
            } else {
                None
            },
            _ => None,
        },
    }
}

/// The address that a text spells, if it spells one.
pub open spec fn ip_reading(text: Seq<char>) -> Option<IpAddr> {
    match v4_reading(text) {
        Some(v4) => Some(IpAddr::V4(v4)),
        None => match v6_reading(text) {
            Some(v6) => Some(IpAddr::V6(v6)),
            None => None,
        },
    }
}

/// What pieces of text say.
pub open spec fn part_views(parts: Seq<Vec<char>>) -> Seq<Seq<char>> {
    parts.map_values(|part: Vec<char>| part@)
}

/// Cuts a text at a separator.
fn split_at(text: &Vec<char>, sep: char) -> (res: Vec<Vec<char>>)
    ensures
        part_views(res@) == split(text@, sep),
        res.len() >= 1,
{
    let mut parts: Vec<Vec<char>> = Vec::new();
    let mut current: Vec<char> = Vec::new();
    let mut i: usize = 0;
    assert(part_views(parts@).push(current@) =~= split(text@.take(0), sep));
    while i < text.len()
        invariant
            i <= text.len(),
            part_views(parts@).push(current@) == split(text@.take(i as int), sep),
        decreases text.len() - i,
    {
        let ghost so_far = part_views(parts@).push(current@);
        assert(text@.take(i + 1).drop_last() =~= text@.take(i as int));
        if text[i] == sep {
            let ghost done = current@;
            let ghost before = part_views(parts@);
            parts.push(current);
            current = Vec::new();
            assert(part_views(parts@) =~= before.push(done));
            assert(part_views(parts@).push(current@) =~= so_far.push(Seq::empty()));
        } else {
            current.push(text[i]);
            assert(part_views(parts@).push(current@) =~= so_far.update(
                so_far.len() - 1,
                so_far.last().push(text@[i as int]),
            ));
        }
        i += 1;
    }
    assert(text@.take(i as int) =~= text@);
    let ghost before = part_views(parts@);
    let ghost last = current@;
    parts.push(current);
    assert(part_views(parts@) =~= before.push(last));
    parts
}

/// The number that up to four digits spell.
fn short_number(text: &Vec<char>, base: u32) -> (res: Option<u32>)
    requires
        2 <= base <= 16,
        text.len() <= 4,
    ensures
        match res {
            Some(v) => all_digits(text@, base as nat) && v == digits_value(text@, base as nat) && v
                < 0x1_0000,
            None => !all_digits(text@, base as nat),
        },
{
    if text.len() == 0 {
        return None;
    }
    let mut value: u32 = 0;
    let mut i: usize = 0;
    let ghost mut bound: int = 1;
    assert(text@.take(0) =~= Seq::<char>::empty());
    while i < text.len()
        invariant
            i <= text.len() <= 4,
            2 <= base <= 16,
            forall|j: int| 0 <= j < i ==> digit_value(#[trigger] text@[j], base as nat) is Some,
            value == digits_value(text@.take(i as int), base as nat),
            value < bound,
            bound == (if i == 0 {
                1int
            } else if i == 1 {
                16
            } else if i == 2 {
                256
            } else if i == 3 {
                4096
            } else {
                65536
            }),
        decreases text.len() - i,
    {
        match digit_of(text[i], base) {
            None => {
                return None;
            },
            Some(d) => {
                assert(text@.take(i + 1).drop_last() =~= text@.take(i as int));
                assert(value * base + d < bound * 16 && value * base <= 65536) by (nonlinear_arith)
                    requires
                        value < bound,
                        bound <= 4096,
                        base <= 16,
                        d < base,
                ;
                value = value * base + d;
                proof {
                    bound = bound * 16;
                }
            },
        }
        i += 1;
    }
    assert(text@.take(i as int) =~= text@);
    Some(value)
}

fn parse_octet(text: &Vec<char>) -> (res: Option<u8>)
    ensures
        res == octet_reading(text@),
{
    if text.len() == 0 || text.len() > 3 || (text.len() > 1 && text[0] == '0') {
        return None;
    }
    match short_number(text, 10) {
        Some(v) => if v <= 255 {
            Some(v as u8)
        } else {
            None
        },
        None => None,
    }
}

fn parse_v4(text: &Vec<char>) -> (res: Option<u32>)
    ensures
        res == v4_reading(text@),
{
    let parts = split_at(text, '.');
    let ghost views = part_views(parts@);
    if parts.len() != 4 {
        return None;
    }
    assert(views[0] == parts[0]@ && views[1] == parts[1]@ && views[2] == parts[2]@ && views[3]
        == parts[3]@);
    match (
        parse_octet(&parts[0]),
        parse_octet(&parts[1]),
        parse_octet(&parts[2]),
        parse_octet(&parts[3]),
    ) {
        (Some(a), Some(b), Some(c), Some(d)) => {
            Some(((a as u32 * 256 + b as u32) * 256 + c as u32) * 256 + d as u32)
        },
        _ => None,
    }
}

fn parse_group(text: &Vec<char>) -> (res: Option<u16>)
    ensures
        res == group_reading(text@),
{
    if text.len() > 4 {
        return None;
    }
    match short_number(text, 16) {
        Some(v) => Some(v as u16),
        None => None,
    }
}

fn parse_side(text: &Vec<char>, v4_last: bool) -> (res: Option<Vec<u16>>)
    ensures
        match res {
            Some(groups) => side_reading(text@, v4_last) == Some(groups@),
            None => side_reading(text@, v4_last) is None,
        },
{
    let mut groups: Vec<u16> = Vec::new();
    if text.len() == 0 {
        assert(groups@ =~= Seq::empty());
        return Some(groups);
    }
    let parts = split_at(text, ':');
    let ghost views = part_views(parts@);
    let mut i: usize = 0;
    assert(views.take(0) =~= Seq::empty());
    assert(groups@ =~= Seq::empty());
    while i < parts.len()
        invariant
            i <= parts.len(),
            parts.len() >= 1,
            views == part_views(parts@),
            side_reading(text@, v4_last) == groups_reading(views, v4_last),
            groups_reading(views.take(i as int), v4_last && i == parts.len()) == Some(groups@),
        decreases parts.len() - i,
    {
        let ghost longer = views.take(i + 1);
        assert(longer.drop_last() =~= views.take(i as int));
        assert(longer.last() == parts[i as int]@);
        let last = i + 1 == parts.len();
        proof {
            if last {
                assert(longer =~= views);
            }
        }
        match parse_group(&parts[i]) {
            Some(group) => {
                groups.push(group);
            },
            None => {
                if !(v4_last && last) {
                    proof {
                        assert(groups_reading(longer, v4_last && last) is None);
                        lemma_prefix_fails(views, i + 1, v4_last);
                    }
                    return None;
                }
                match parse_v4(&parts[i]) {
                    Some(v4) => {
                        let ghost so_far = groups@;
                        groups.push((v4 / 0x1_0000) as u16);
                        groups.push((v4 % 0x1_0000) as u16);
                        assert(groups@ =~= so_far + v4_groups(v4));
                    },
                    None => {
                        return None;
                    },
                }
            },
        }
        i += 1;
    }
    assert(views.take(i as int) =~= views);
    Some(groups)
}

/// Pieces that cannot be read are not read because more follow.
proof fn lemma_prefix_fails(parts: Seq<Seq<char>>, k: int, v4_last: bool)
    requires
        0 <= k <= parts.len(),
        groups_reading(parts.take(k), v4_last && k == parts.len()) is None,
    ensures
        groups_reading(parts, v4_last) is None,
    decreases parts.len(),
{
    if k == parts.len() {
        assert(parts.take(k) =~= parts);
    } else {
        assert(parts.drop_last().take(k) =~= parts.take(k));
        lemma_prefix_fails(parts.drop_last(), k, false);
    }
}

/// The part of a text from `from` to before `to`.
fn cut(text: &Vec<char>, from: usize, to: usize) -> (res: Vec<char>)
    requires
        from <= to <= text.len(),
    ensures
        res@ == text@.subrange(from as int, to as int),
{
    let mut out: Vec<char> = Vec::new();
    let mut i: usize = from;
    while i < to
        invariant
            from <= i <= to <= text.len(),
            out@ == text@.subrange(from as int, i as int),
        decreases to - i,
    {
        out.push(text[i]);
        i += 1;
        assert(out@ =~= text@.subrange(from as int, i as int));
    }
    out
}

fn find_gap(text: &Vec<char>) -> (res: Option<usize>)
    ensures
        match res {
            Some(at) => first_gap(text@, 0) == Some(at as int) && at + 1 < text.len(),
            None => first_gap(text@, 0) is None,
        },
{
    let mut i: usize = 0;
    while i < text.len() && text.len() - i > 1
        invariant
            i <= text.len(),
            first_gap(text@, 0) == first_gap(text@, i as int),
        decreases text.len() - i,
    {
        if text[i] == ':' && text[i + 1] == ':' {
            return Some(i);
        }
        i += 1;
    }
    None
}

fn parse_v6(text: &Vec<char>) -> (res: Option<u128>)
    ensures
        res == v6_reading(text@),
{
    match find_gap(text) {
        None => match parse_side(text, true) {
            Some(groups) => if groups.len() == 8 {
                Some(join(groups.as_slice()))
            } else {
                None
            },
            None => None,
        },
        Some(at) => {
            let left = cut(text, 0, at);
            let right = cut(text, at + 2, text.len());
            assert(left@ =~= text@.take(at as int));
            assert(right@ =~= text@.skip(at + 2));
            match (parse_side(&left, false), parse_side(&right, true)) {
                (Some(head), Some(tail)) => {
                    if tail.len() > 7 || head.len() > 7 - tail.len() {
                        return None;
                    }
                    let mut groups: Vec<u16> = Vec::new();
                    let mut head = head;
                    let mut tail = tail;
                    let ghost h = head@;
                    let ghost t = tail@;
                    let missing: usize = 8 - head.len() - tail.len();
                    groups.append(&mut head);
                    let mut k: usize = 0;
                    while k < missing
                        invariant
                            k <= missing,
                            groups@ =~= h + zeros(k as nat),
                        decreases missing - k,
                    {
                        groups.push(0);
                        k += 1;
                    }
                    groups.append(&mut tail);
                    assert(groups@ =~= h + zeros((8 - h.len() - t.len()) as nat) + t);
                    Some(join(groups.as_slice()))
                },
                _ => None,
            }
        },
    }
}

/// Reads an address: an IPv4 address in dotted decimal, or an IPv6 address.
pub fn parse_ip(text: &str) -> (res: Option<IpAddr>)
    ensures
        res == ip_reading(text@),
{
    let chars = chars_of(text);
    match parse_v4(&chars) {
        Some(v4) => Some(IpAddr::V4(v4)),
        None => match parse_v6(&chars) {
            Some(v6) => Some(IpAddr::V6(v6)),
            None => None,
        },
    }
}

} // verus!

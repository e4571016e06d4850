//! An address that is written and read again is the same address.

use vstd::prelude::*;
use vstd::string::*;

use crate::ip::{group_power, join_groups, IpAddr};
use crate::ip_format::{
    compressed_text, groups_of, groups_text, ip_text, lemma_groups_round_trip, longest_run,
    octet_at, v4_text, v6_text, zero_run,
};
use crate::ip_text::{
    first_gap, gap_at, group_reading, groups_reading, ip_reading, octet_reading, side_reading,
    split, v4_groups, v4_reading, v6_reading, zeros,
};
use crate::pool_mux::mapped_v4;
use crate::text::{all_digits, digit_char, digit_value, digits_value, numeral};

verus! {

/// A number that is written in a base and read again is the same number, and it
/// has no leading zero.
pub proof fn lemma_numeral_round_trip(n: nat, base: nat)
    requires
        2 <= base <= 16,
    ensures
        all_digits(numeral(n, base), base),
        digits_value(numeral(n, base), base) == n,
        n > 0 ==> numeral(n, base)[0] != '0',
        n < base ==> numeral(n, base).len() == 1,
    decreases n,
{
    let text = numeral(n, base);
    if n < base {
        assert(text.drop_last() =~= Seq::<char>::empty());
        reveal_with_fuel(digits_value, 2);
        assert(digits_value(Seq::<char>::empty(), base) * base == 0) by (nonlinear_arith)
            requires
                digits_value(Seq::<char>::empty(), base) == 0,
        ;
        assert(digit_value(digit_char(n), base) == Some(n));
    } else {
        assert(n / base < n && n / base > 0 && n % base < base && (n / base) * base + n % base == n)
            by (nonlinear_arith)
            requires
                base >= 2,
                n >= base,
        ;
        lemma_numeral_round_trip(n / base, base);
        let shorter = numeral(n / base, base);
        assert(text.drop_last() =~= shorter);
        assert(digit_value(digit_char(n % base), base) == Some(n % base));
        assert forall|i: int| 0 <= i < text.len() implies digit_value(#[trigger] text[i], base) is Some by {
            if i < shorter.len() {
                assert(text[i] == shorter[i]);
            }
        }
        assert(text[0] == shorter[0]);
    }
}

/// An octet has at most three decimal digits.
pub(crate) proof fn lemma_octet_text(n: nat)
    requires
        n < 256,
    ensures
        octet_reading(numeral(n, 10)) == Some(n as u8),
        !numeral(n, 10).contains('.'),
        !numeral(n, 10).contains(':'),
{
    lemma_numeral_round_trip(n, 10);
    assert(numeral(n, 10).len() <= 3) by {
        reveal_with_fuel(numeral, 4);
    }
    lemma_digits_only(numeral(n, 10), 10);
}

/// A group has at most four hexadecimal digits.
proof fn lemma_group_text(n: u16)
    ensures
        group_reading(numeral(n as nat, 16)) == Some(n),
        !numeral(n as nat, 16).contains(':'),
        numeral(n as nat, 16).len() >= 1,
{
    lemma_numeral_round_trip(n as nat, 16);
    assert(numeral(n as nat, 16).len() <= 4) by {
        reveal_with_fuel(numeral, 5);
    }
    lemma_digits_only(numeral(n as nat, 16), 16);
}

/// Digits are neither dots nor colons.
pub(crate) proof fn lemma_digits_only(text: Seq<char>, base: nat)
    requires
        all_digits(text, base),
    ensures
        !text.contains('.'),
        !text.contains(':'),
{
    assert forall|i: int| 0 <= i < text.len() implies text[i] != '.' && text[i] != ':' by {
        assert(digit_value(text[i], base) is Some);
    }
}

pub(crate) proof fn lemma_split_plain(text: Seq<char>, sep: char)
    requires
        !text.contains(sep),
    ensures
        split(text, sep) == seq![text],
    decreases text.len(),
{
    if text.len() > 0 {
        let shorter = text.drop_last();
        assert forall|i: int| 0 <= i < shorter.len() implies shorter[i] != sep by {
            assert(text[i] == shorter[i]);
            assert(text.contains(text[i]));
        }
        assert(!shorter.contains(sep));
        lemma_split_plain(shorter, sep);
        assert(text.contains(text.last()));
        assert(shorter.push(text.last()) =~= text);
        assert(split(text, sep) =~= seq![text]);
    } else {
        assert(text =~= Seq::empty());
    }
}

/// A last piece is split off at its separator.
pub(crate) proof fn lemma_split_last(front: Seq<char>, sep: char, piece: Seq<char>)
    requires
        !piece.contains(sep),
    ensures
        split(front + seq![sep] + piece, sep) == split(front, sep).push(piece),
    decreases piece.len(),
{
    let text = front + seq![sep] + piece;
    if piece.len() == 0 {
        assert(text.drop_last() =~= front);
        assert(piece =~= Seq::empty());
    } else {
        let shorter = piece.drop_last();
        assert forall|i: int| 0 <= i < shorter.len() implies shorter[i] != sep by {
            assert(piece[i] == shorter[i]);
            assert(piece.contains(piece[i]));
        }
        assert(!shorter.contains(sep));
        lemma_split_last(front, sep, shorter);
        assert(text.drop_last() =~= front + seq![sep] + shorter);
        assert(text.last() == piece.last());
        assert(piece.contains(piece.last()));
        assert(shorter.push(piece.last()) =~= piece);
        let parts = split(front, sep).push(shorter);
        assert(parts.update(parts.len() - 1, parts.last().push(piece.last())) =~= split(
            front,
            sep,
        ).push(piece));
    }
}

/// What is not the separator is in some piece.
proof fn lemma_split_keeps(text: Seq<char>, sep: char, c: char) -> (p: int)
    requires
        text.contains(c),
        c != sep,
    ensures
        0 <= p < split(text, sep).len(),
        split(text, sep)[p].contains(c),
    decreases text.len(),
{
    let parts = split(text.drop_last(), sep);
    lemma_split_nonempty(text.drop_last(), sep);
    if text.last() == c {
        let p = parts.len() - 1;
        let piece = parts.last().push(c);
        assert(piece[piece.len() - 1] == c);
        p
    } else {
        let i = choose|i: int| 0 <= i < text.len() && text[i] == c;
        assert(text.drop_last()[i] == c);
        let p = lemma_split_keeps(text.drop_last(), sep, c);
        if text.last() != sep && p == parts.len() - 1 {
            let j = choose|j: int| 0 <= j < parts[p].len() && parts[p][j] == c;
            assert(parts.last().push(text.last())[j] == c);
        }
        p
    }
}

proof fn lemma_split_nonempty(text: Seq<char>, sep: char)
    ensures
        split(text, sep).len() >= 1,
    decreases text.len(),
{
    if text.len() > 0 {
        lemma_split_nonempty(text.drop_last(), sep);
    }
}

/// A text with a colon is no IPv4 address.
proof fn lemma_colon_is_not_v4(text: Seq<char>)
    requires
        text.contains(':'),
    ensures
        v4_reading(text) is None,
{
    let p = lemma_split_keeps(text, '.', ':');
    let piece = split(text, '.')[p];
    if octet_reading(piece) is Some {
        lemma_digits_only(piece, 10);
    }
}

/// Dotted decimal is read back.
pub(crate) proof fn lemma_v4_round_trip(v4: u32)
    ensures
        v4_reading(v4_text(v4)) == Some(v4),
        v4_text(v4).contains('.'),
        !v4_text(v4).contains(':'),
{
    reveal_strlit(".");
    let a = numeral(octet_at(v4, 0), 10);
    let b = numeral(octet_at(v4, 1), 10);
    let c = numeral(octet_at(v4, 2), 10);
    let d = numeral(octet_at(v4, 3), 10);
    lemma_octet_text(octet_at(v4, 0));
    lemma_octet_text(octet_at(v4, 1));
    lemma_octet_text(octet_at(v4, 2));
    lemma_octet_text(octet_at(v4, 3));
    let dot = seq!['.'];
    assert("."@ =~= dot);
    let text = v4_text(v4);
    assert(text =~= a + dot + b + dot + c + dot + d);
    lemma_split_plain(a, '.');
    lemma_split_last(a, '.', b);
    lemma_split_last(a + dot + b, '.', c);
    lemma_split_last(a + dot + b + dot + c, '.', d);
    let parts = split(text, '.');
    assert(parts =~= seq![a, b, c, d]);
    assert(text[a.len() as int] == '.');
    assert forall|i: int| 0 <= i < text.len() implies text[i] != ':' by {
        if i < a.len() {
            assert(a.contains(a[i]));
        } else if a.len() < i < a.len() + 1 + b.len() {
            assert(b.contains(b[i - a.len() - 1]));
        } else if a.len() + 1 + b.len() < i < a.len() + 2 + b.len() + c.len() {
            assert(c.contains(c[i - a.len() - b.len() - 2]));
        } else if i > a.len() + b.len() + c.len() + 2 {
            assert(d.contains(d[i - a.len() - b.len() - c.len() - 3]));
        }
    }
}

/// The pieces of a text of groups.
spec fn group_parts(groups: Seq<u16>) -> Seq<Seq<char>> {
    groups.map_values(|g: u16| numeral(g as nat, 16))
}

/// A text of groups is split into its groups; it begins and ends with a digit
/// and has no two colons together.
proof fn lemma_groups_text(groups: Seq<u16>)
    requires
        groups.len() >= 1,
    ensures
        split(groups_text(groups), ':') == group_parts(groups),
        groups_text(groups).len() >= 1,
        groups_text(groups)[0] != ':',
        groups_text(groups).last() != ':',
        forall|i: int| !gap_at(groups_text(groups), i),
        groups.len() >= 2 ==> groups_text(groups).contains(':'),
    decreases groups.len(),
{
    reveal_strlit(":");
    let text = groups_text(groups);
    let last = numeral(groups.last() as nat, 16);
    lemma_group_text(groups.last());
    assert(last.contains(last[0]));
    assert(last.contains(last.last()));
    if groups.len() == 1 {
        lemma_split_plain(last, ':');
        assert(group_parts(groups) =~= seq![last]);
        assert forall|i: int| !gap_at(text, i) by {
            if 0 <= i < text.len() {
                assert(last.contains(text[i]));
            }
        }
    } else {
        let shorter = groups.drop_last();
        let front = groups_text(shorter);
        lemma_groups_text(shorter);
        assert(text =~= front + seq![':'] + last);
        lemma_split_last(front, ':', last);
        assert(group_parts(groups) =~= group_parts(shorter).push(last));
        assert(text[front.len() as int] == ':');
        assert forall|i: int| !gap_at(text, i) by {
            if gap_at(text, i) {
                if i + 1 < front.len() {
                    assert(gap_at(front, i));
                } else if i + 1 == front.len() {
                    assert(front.last() == text[i]);
                } else if i == front.len() {
                    assert(last[0] == text[i + 1]);
                } else {
                    assert(last.contains(text[i]));
                }
            }
        }
    }
}

/// Groups are read back from their pieces.
proof fn lemma_groups_reading(groups: Seq<u16>, v4_last: bool)
    ensures
        groups_reading(group_parts(groups), v4_last) == Some(groups),
    decreases groups.len(),
{
    if groups.len() > 0 {
        lemma_groups_reading(groups.drop_last(), false);
        lemma_group_text(groups.last());
        assert(group_parts(groups).drop_last() =~= group_parts(groups.drop_last()));
        assert(groups.drop_last().push(groups.last()) =~= groups);
    } else {
        assert(groups =~= Seq::empty());
    }
}

/// Groups are read back from their text.
proof fn lemma_side_round_trip(groups: Seq<u16>, v4_last: bool)
    ensures
        side_reading(groups_text(groups), v4_last) == Some(groups),
{
    if groups.len() > 0 {
        lemma_groups_text(groups);
        lemma_groups_reading(groups, v4_last);
    } else {
        assert(groups =~= Seq::empty());
    }
}

pub(crate) proof fn lemma_no_gap(text: Seq<char>, from: int)
    requires
        forall|i: int| !gap_at(text, i),
    ensures
        first_gap(text, from) is None,
    decreases text.len() - from,
{
    if 0 <= from && from + 1 < text.len() {
        lemma_no_gap(text, from + 1);
    }
}

pub(crate) proof fn lemma_gap_found(text: Seq<char>, from: int, at: int)
    requires
        0 <= from <= at,
        gap_at(text, at),
        forall|i: int| from <= i < at ==> !gap_at(text, i),
    ensures
        first_gap(text, from) == Some(at),
    decreases at - from,
{
    if from < at {
        lemma_gap_found(text, from + 1, at);
    }
}

/// A run of zero groups is zero throughout and within the groups.
pub(crate) proof fn lemma_zero_run(groups: Seq<u16>, i: int)
    requires
        0 <= i <= groups.len(),
    ensures
        i + zero_run(groups, i) <= groups.len(),
        forall|j: int| i <= j < i + zero_run(groups, i) ==> groups[j] == 0,
    decreases groups.len() - i,
{
    if i < groups.len() && groups[i] == 0 {
        lemma_zero_run(groups, i + 1);
    }
}

pub(crate) proof fn lemma_longest_run(groups: Seq<u16>, n: nat)
    requires
        n <= groups.len(),
    ensures
        ({
            let (start, len) = longest_run(groups, n);
            &&& 0 <= start
            &&& start + len <= groups.len()
            &&& forall|j: int| start <= j < start + len ==> groups[j] == 0
        }),
    decreases n,
{
    if n > 0 {
        lemma_longest_run(groups, (n - 1) as nat);
        lemma_zero_run(groups, n - 1);
    }
}

/// Eight groups are read back from their text, with or without a run left out.
proof fn lemma_compressed_round_trip(groups: Seq<u16>)
    requires
        groups.len() == 8,
    ensures
        v6_reading(compressed_text(groups)) == Some(join_groups(groups) as u128),
        compressed_text(groups).contains(':'),
{
    reveal_strlit("::");
    let text = compressed_text(groups);
    let (start, len) = longest_run(groups, groups.len());
    lemma_longest_run(groups, groups.len());
    if len > 1 {
        let head = groups.take(start);
        let tail = groups.skip(start + len);
        let left = groups_text(head);
        let right = groups_text(tail);
        assert(text =~= left + seq![':', ':'] + right);
        let at = left.len() as int;
        assert(text[at] == ':' && text[at + 1] == ':');
        assert(gap_at(text, at));
        if head.len() > 0 {
            lemma_groups_text(head);
        }
        assert forall|i: int| 0 <= i < at implies !gap_at(text, i) by {
            if gap_at(text, i) {
                if i + 1 < at {
                    assert(gap_at(left, i));
                } else {
                    assert(left.last() == text[i]);
                }
            }
        }
        lemma_gap_found(text, 0, at);
        assert(text.take(at) =~= left);
        assert(text.skip(at + 2) =~= right);
        lemma_side_round_trip(head, false);
        lemma_side_round_trip(tail, true);
        assert(head + zeros((8 - head.len() - tail.len()) as nat) + tail =~= groups);
    } else {
        lemma_groups_text(groups);
        lemma_no_gap(text, 0);
        lemma_side_round_trip(groups, true);
    }
}

/// The group of all ones.
spec fn all_ones() -> Seq<char> {
    seq!['f', 'f', 'f', 'f']
}

proof fn lemma_all_ones()
    ensures
        group_reading(all_ones()) == Some(0xffffu16),
        !all_ones().contains(':'),
{
    let ffff = all_ones();
    assert(ffff.drop_last() =~= seq!['f', 'f', 'f']);
    assert(seq!['f', 'f', 'f'].drop_last() =~= seq!['f', 'f']);
    assert(seq!['f', 'f'].drop_last() =~= seq!['f']);
    assert(seq!['f'].drop_last() =~= Seq::<char>::empty());
    assert(digits_value(Seq::<char>::empty(), 16) == 0);
    assert(digits_value(seq!['f'], 16) == 15);
    assert(digits_value(seq!['f', 'f'], 16) == 255);
    assert(digits_value(seq!['f', 'f', 'f'], 16) == 4095);
    assert(digits_value(ffff, 16) == 65535);
    lemma_digits_only(ffff, 16);
}

/// One group and an IPv4 address make three groups.
proof fn lemma_group_and_v4(first: Seq<char>, group: u16, dotted: Seq<char>, v4: u32)
    requires
        group_reading(first) == Some(group),
        v4_reading(dotted) == Some(v4),
        dotted.contains('.'),
    ensures
        groups_reading(seq![first, dotted], true) == Some(seq![group] + v4_groups(v4)),
{
    let parts = seq![first, dotted];
    if group_reading(dotted) is Some {
        lemma_digits_only(dotted, 16);
    }
    let one = seq![first];
    assert(parts.drop_last() =~= one);
    assert(one.drop_last() =~= Seq::<Seq<char>>::empty());
    assert(groups_reading(Seq::<Seq<char>>::empty(), false) == Some(Seq::<u16>::empty()));
    assert(Seq::<u16>::empty().push(group) =~= seq![group]);
    assert(groups_reading(one, false) == Some(seq![group]));
}

/// The text of an IPv4-mapped address with the given dotted decimal.
spec fn mapped_text(dotted: Seq<char>) -> Seq<char> {
    seq![':', ':'] + (all_ones() + seq![':'] + dotted)
}

/// What follows the two colons of an IPv4-mapped address.
proof fn lemma_mapped_side(dotted: Seq<char>, v4: u32)
    requires
        v4_reading(dotted) == Some(v4),
        dotted.contains('.'),
        !dotted.contains(':'),
    ensures
        side_reading(all_ones() + seq![':'] + dotted, true) == Some(
            seq![0xffffu16] + v4_groups(v4),
        ),
{
    let rest = all_ones() + seq![':'] + dotted;
    lemma_all_ones();
    assert(split(rest, ':') == seq![all_ones(), dotted]) by {
        lemma_split_plain(all_ones(), ':');
        lemma_split_last(all_ones(), ':', dotted);
        assert(split(rest, ':') =~= seq![all_ones(), dotted]);
    }
    lemma_group_and_v4(all_ones(), 0xffff, dotted, v4);
}

proof fn lemma_mapped_reading(dotted: Seq<char>, v4: u32)
    requires
        v4_reading(dotted) == Some(v4),
        dotted.contains('.'),
        !dotted.contains(':'),
    ensures
        v6_reading(mapped_text(dotted)) == Some((0xffff_0000_0000 + v4) as u128),
        mapped_text(dotted).contains(':'),
{
    let text = mapped_text(dotted);
    let rest = all_ones() + seq![':'] + dotted;
    assert(text[0] == ':' && text[1] == ':');
    assert(gap_at(text, 0));
    assert(first_gap(text, 0) == Some(0int));
    assert(text.take(0) =~= Seq::empty());
    assert(text.skip(2) =~= rest);
    lemma_mapped_side(dotted, v4);
    let tail = seq![0xffffu16] + v4_groups(v4);
    let hi = (v4 / 0x1_0000) as u16;
    let lo = (v4 % 0x1_0000) as u16;
    let groups = Seq::<u16>::empty() + zeros(5) + tail;
    assert(groups =~= seq![0u16, 0u16, 0u16, 0u16, 0u16, 0xffffu16, hi, lo]);
    lemma_join_mapped(hi, lo);
    assert(side_reading(text.take(0), false) == Some(Seq::<u16>::empty()));
    assert(v6_reading(text) == Some(join_groups(groups) as u128));
}

/// An IPv4-mapped address is read back from its text.
proof fn lemma_mapped_round_trip(v6: u128, v4: u32)
    requires
        mapped_v4(v6) == Some(v4),
    ensures
        v6_reading(v6_text(v6)) == Some(v6),
        v6_text(v6).contains(':'),
{
    lemma_v4_round_trip(v4);
    lemma_mapped_reading(v4_text(v4), v4);
    reveal_strlit("::ffff:");
    assert("::ffff:"@ + v4_text(v4) =~= mapped_text(v4_text(v4)));
}

proof fn lemma_join_mapped(hi: u16, lo: u16)
    ensures
        join_groups(seq![0u16, 0u16, 0u16, 0u16, 0u16, 0xffffu16, hi, lo]) == 0xffff
            * 0x1_0000_0000 + hi * 0x1_0000 + lo,
{
    let all = seq![0u16, 0u16, 0u16, 0u16, 0u16, 0xffffu16, hi, lo];
    let seven = seq![0u16, 0u16, 0u16, 0u16, 0u16, 0xffffu16, hi];
    let six = seq![0u16, 0u16, 0u16, 0u16, 0u16, 0xffffu16];
    let five = seq![0u16, 0u16, 0u16, 0u16, 0u16];
    assert(all.drop_last() =~= seven);
    assert(seven.drop_last() =~= six);
    assert(six.drop_last() =~= five);
    assert(join_groups(five) == 0) by {
        reveal_with_fuel(join_groups, 6);
    }
    assert(join_groups(six) == 0xffff);
    assert(join_groups(seven) == 0xffff * 0x1_0000 + hi);
}

/// Every address is read back from its text.
pub proof fn lemma_ip_round_trip(ip: IpAddr)
    ensures
        ip_reading(ip_text(ip)) == Some(ip),
{
    match ip {
        IpAddr::V4(v4) => {
            lemma_v4_round_trip(v4);
        },
        IpAddr::V6(v6) => {
            match mapped_v4(v6) {
                Some(v4) => {
                    lemma_mapped_round_trip(v6, v4);
                },
                None => {
                    assert(group_power(8) == 0x1_0000_0000_0000_0000_0000_0000_0000_0000) by {
                        reveal_with_fuel(group_power, 9);
                    }
                    lemma_groups_round_trip(v6 as nat, 8);
                    lemma_compressed_round_trip(groups_of(v6 as nat, 8));
                },
            }
            lemma_colon_is_not_v4(ip_text(ip));
        },
    }
}

/// Different addresses have different texts.
pub proof fn lemma_ip_text_injective(a: IpAddr, b: IpAddr)
    requires
        ip_text(a) == ip_text(b),
    ensures
        a == b,
{
    lemma_ip_round_trip(a);
    lemma_ip_round_trip(b);
}

} // verus!

//! Addresses as text, by the pieces between dots and colons.

use vstd::prelude::*;
use vstd::string::*;

use crate::ip::{join_groups, join_octets, IpAddr};
use crate::ip_format::{
    compressed_text, groups_of, groups_text, longest_run, octet_at, v4_text, v6_text, zero_run,
};
use crate::ip_text::{
    first_gap, gap_at, group_reading, groups_reading, ip_reading, octet_reading, side_reading,
    split, v4_groups, v4_reading, v6_reading, zeros,
};
use crate::ip_text_laws::{
    lemma_digits_only, lemma_gap_found, lemma_no_gap, lemma_octet_text, lemma_split_last,
    lemma_split_plain, lemma_v4_round_trip,
};
use crate::number_laws::{
    digits_in, lemma_digit_table, lemma_digits_by_place, lemma_numeral_is_the_only_one,
    lemma_only_digits_are_read, lower_digits, place_value, writes,
};
use crate::routing_laws::big_endian;
use crate::text::{digit_value, digits_value, numeral};

verus! {

/// Pieces with a separator between them.
pub open spec fn joined(parts: Seq<Seq<char>>, sep: char) -> Seq<char>
    decreases parts.len(),
{
    if parts.len() == 0 {
        Seq::empty()
    } else if parts.len() == 1 {
        parts[0]
    } else {
        joined(parts.drop_last(), sep) + seq![sep] + parts.last()
    }
}

/// Whether the separator stands in none of the pieces.
pub open spec fn free_of(parts: Seq<Seq<char>>, sep: char) -> bool {
    forall|i: int| 0 <= i < parts.len() ==> !(#[trigger] parts[i]).contains(sep)
}

/// A text is cut into the pieces that it was joined from.
pub proof fn lemma_split_of_joined(parts: Seq<Seq<char>>, sep: char)
    requires
        parts.len() >= 1,
        free_of(parts, sep),
    ensures
        split(joined(parts, sep), sep) == parts,
    decreases parts.len(),
{
    if parts.len() == 1 {
        assert(!parts[0].contains(sep));
        lemma_split_plain(parts[0], sep);
        assert(parts =~= seq![parts[0]]);
    } else {
        let front = parts.drop_last();
        assert(free_of(front, sep)) by {
            assert forall|i: int| 0 <= i < front.len() implies !(#[trigger] front[i]).contains(
                sep,
            ) by {
                assert(front[i] == parts[i]);
            }
        }
        lemma_split_of_joined(front, sep);
        assert(!parts[parts.len() - 1].contains(sep));
        lemma_split_last(joined(front, sep), sep, parts.last());
        assert(front.push(parts.last()) =~= parts);
    }
}

/// The pieces of a text make up the text, and the separator stands in none.
pub proof fn lemma_joined_of_split(text: Seq<char>, sep: char)
    ensures
        split(text, sep).len() >= 1,
        free_of(split(text, sep), sep),
        joined(split(text, sep), sep) == text,
    decreases text.len(),
{
    let parts = split(text, sep);
    if text.len() == 0 {
        assert(parts =~= seq![Seq::<char>::empty()]);
        assert(text =~= Seq::empty());
    } else {
        let shorter = text.drop_last();
        let before = split(shorter, sep);
        lemma_joined_of_split(shorter, sep);
        assert(text =~= shorter.push(text.last()));
        if text.last() == sep {
            assert(parts.drop_last() =~= before);
            assert(joined(parts, sep) =~= text);
        } else {
            let last = before.last();
            assert(!before[before.len() - 1].contains(sep));
            assert(!last.push(text.last()).contains(sep)) by {
                vstd::seq_lib::lemma_seq_contains_after_push(last, text.last(), sep);
            }
            assert forall|i: int| 0 <= i < parts.len() implies !(#[trigger] parts[i]).contains(
                sep,
            ) by {
                if i < parts.len() - 1 {
                    assert(parts[i] == before[i]);
                }
            }
            assert(parts.drop_last() =~= before.drop_last());
            if before.len() > 1 {
                assert(joined(before, sep) == joined(before.drop_last(), sep) + seq![sep] + last);
            }
            assert(joined(parts, sep) =~= text);
        }
    }
}

proof fn lemma_decimal_octet(text: Seq<char>, octet: u8)
    ensures
        octet_reading(text) == Some(octet) <==> text == numeral(octet as nat, 10),
{
    lemma_octet_text(octet as nat);
    if octet_reading(text) == Some(octet) {
        assert forall|i: int| 0 <= i < text.len() implies lower_digits().contains(
            #[trigger] text[i],
        ) by {
            assert(digit_value(text[i], 10) is Some);
            let d = digit_value(text[i], 10).unwrap();
            lemma_digit_table(text[i], 10, d);
            assert(lower_digits()[d as int] == text[i]);
        }
        lemma_numeral_is_the_only_one(text, 10);
    }
}

/// Four octets make the number in which each has its place.
#[verifier::rlimit(40)]
pub proof fn lemma_octets_by_place(a: u8, b: u8, c: u8, d: u8)
    ensures
        join_octets(a, b, c, d) == a * 0x100_0000 + b * 0x1_0000 + c * 0x100 + d,
        join_octets(a, b, c, d) == big_endian(seq![a, b, c, d]),
{
    reveal_with_fuel(big_endian, 5);
}

#[verifier::rlimit(40)]
proof fn lemma_octets_back(a: u8, b: u8, c: u8, d: u8)
    ensures
        ({
            let v4 = (a * 0x100_0000 + b * 0x1_0000 + c * 0x100 + d) as u32;
            octet_at(v4, 0) == a && octet_at(v4, 1) == b && octet_at(v4, 2) == c && octet_at(v4, 3)
                == d
        }),
{
    let all = a * 0x100_0000 + b * 0x1_0000 + c * 0x100 + d;
    let v4 = all as u32;
    assert(v4 == all);
    assert(all / 0x100_0000 == a);
    assert(all / 0x1_0000 == a * 0x100 + b);
    assert((a * 0x100 + b) % 0x100 == b);
    assert(all / 0x100 == a * 0x1_0000 + b * 0x100 + c);
    assert((a * 0x1_0000 + b * 0x100 + c) % 0x100 == c);
    assert(all % 0x100 == d);
}

/// An IPv4 address is written as its four octets in decimal with dots between
/// them.
pub proof fn lemma_v4_text_by_octets(a: u8, b: u8, c: u8, d: u8)
    ensures
        v4_text((a * 0x100_0000 + b * 0x1_0000 + c * 0x100 + d) as u32) == joined(
            seq![
                numeral(a as nat, 10),
                numeral(b as nat, 10),
                numeral(c as nat, 10),
                numeral(d as nat, 10),
            ],
            '.',
        ),
{
    let v4 = (a * 0x100_0000 + b * 0x1_0000 + c * 0x100 + d) as u32;
    let dot = seq!['.'];
    reveal_strlit(".");
    assert("."@ =~= dot);
    lemma_octets_back(a, b, c, d);
    assert(v4_text(v4) == numeral(a as nat, 10) + dot + numeral(b as nat, 10) + dot + numeral(
        c as nat,
        10,
    ) + dot + numeral(d as nat, 10));
    lemma_four_pieces(
        numeral(a as nat, 10),
        numeral(b as nat, 10),
        numeral(c as nat, 10),
        numeral(d as nat, 10),
    );
}

proof fn lemma_four_pieces(a: Seq<char>, b: Seq<char>, c: Seq<char>, d: Seq<char>)
    ensures
        joined(seq![a, b, c, d], '.') == a + seq!['.'] + b + seq!['.'] + c + seq!['.'] + d,
{
    let four = seq![a, b, c, d];
    let three = seq![a, b, c];
    let two = seq![a, b];
    assert(four.drop_last() =~= three);
    assert(three.drop_last() =~= two);
    assert(two.drop_last() =~= seq![a]);
    assert(joined(seq![a], '.') == a);
    assert(joined(two, '.') == a + seq!['.'] + b);
    assert(joined(three, '.') == a + seq!['.'] + b + seq!['.'] + c);
}

/// An IPv4 address is read from exactly one text, the one that it is written as.
#[verifier::rlimit(40)]
pub proof fn lemma_v4_has_one_text(text: Seq<char>, v4: u32)
    ensures
        v4_reading(text) == Some(v4) <==> text == v4_text(v4),
{
    lemma_v4_round_trip(v4);
    if v4_reading(text) == Some(v4) {
        let parts = split(text, '.');
        lemma_joined_of_split(text, '.');
        let a = octet_reading(parts[0]).unwrap();
        let b = octet_reading(parts[1]).unwrap();
        let c = octet_reading(parts[2]).unwrap();
        let d = octet_reading(parts[3]).unwrap();
        lemma_decimal_octet(parts[0], a);
        lemma_decimal_octet(parts[1], b);
        lemma_decimal_octet(parts[2], c);
        lemma_decimal_octet(parts[3], d);
        lemma_v4_text_by_octets(a, b, c, d);
        assert(parts =~= seq![
            numeral(a as nat, 10),
            numeral(b as nat, 10),
            numeral(c as nat, 10),
            numeral(d as nat, 10),
        ]);
        assert(join_octets(a, b, c, d) == a * 0x100_0000 + b * 0x1_0000 + c * 0x100 + d);
    }
}

/// A group is read from one to four hexadecimal digits of either case.
pub proof fn lemma_group_by_place(text: Seq<char>, group: u16)
    ensures
        group_reading(text) == Some(group) <==> 1 <= text.len() <= 4 && exists|digits: Seq<nat>|
            #[trigger] writes(text, digits, 16) && place_value(digits, 16) == group,
{
    if group_reading(text) is Some {
        let digits = digits_in(text, 16);
        lemma_only_digits_are_read(text, 16);
        lemma_digits_by_place(text, digits, 16);
        lemma_short_value(text);
    }
    if 1 <= text.len() <= 4 && exists|digits: Seq<nat>| #[trigger]
        writes(text, digits, 16) && place_value(digits, 16) == group {
        let digits = choose|digits: Seq<nat>| #[trigger]
            writes(text, digits, 16) && place_value(digits, 16) == group;
        lemma_digits_by_place(text, digits, 16);
    }
}

proof fn lemma_short_value(text: Seq<char>)
    requires
        text.len() <= 4,
    ensures
        digits_value(text, 16) <= 0xffff,
{
    reveal_with_fuel(digits_value, 5);
}

/// The number that groups spell is the sum of the groups at their places.
pub proof fn lemma_groups_by_place(groups: Seq<u16>)
    ensures
        join_groups(groups) == place_value(
            groups.map_values(|group: u16| group as nat),
            0x1_0000,
        ),
    decreases groups.len(),
{
    let values = groups.map_values(|group: u16| group as nat);
    if groups.len() > 0 {
        let front = groups.drop_last();
        let front_values = front.map_values(|group: u16| group as nat);
        lemma_groups_by_place(front);
        crate::number_laws::lemma_place_value_push(front_values, groups.last() as nat, 0x1_0000);
        assert(front_values.push(groups.last() as nat) =~= values);
    } else {
        assert(values =~= Seq::empty());
    }
}

/// Whether pieces spell groups, one each, or all but the last piece one each and
/// the last, if `dotted`, two as an IPv4 address.
pub open spec fn spell(parts: Seq<Seq<char>>, groups: Seq<u16>, dotted: bool) -> bool {
    if dotted {
        &&& parts.len() >= 1
        &&& groups.len() == parts.len() + 1
        &&& forall|i: int|
            0 <= i < parts.len() - 1 ==> group_reading(#[trigger] parts[i]) == Some(groups[i])
        &&& parts.last() == v4_text(
            (groups[groups.len() - 2] * 0x1_0000 + groups[groups.len() - 1]) as u32,
        )
    } else {
        &&& groups.len() == parts.len()
        &&& forall|i: int|
            0 <= i < parts.len() ==> group_reading(#[trigger] parts[i]) == Some(groups[i])
    }
}

proof fn lemma_plain_pieces(parts: Seq<Seq<char>>, groups: Seq<u16>)
    ensures
        groups_reading(parts, false) == Some(groups) <==> spell(parts, groups, false),
    decreases parts.len(),
{
    if parts.len() == 0 {
        if spell(parts, groups, false) {
            assert(groups =~= Seq::empty());
        }
    } else {
        let front = parts.drop_last();
        let n = parts.len() - 1;
        if groups_reading(parts, false) == Some(groups) {
            let before = groups.drop_last();
            assert(groups_reading(front, false) is Some);
            let found = groups_reading(front, false).unwrap();
            assert(groups == found.push(group_reading(parts.last()).unwrap()));
            assert(before =~= found);
            lemma_plain_pieces(front, before);
            assert forall|i: int| 0 <= i < parts.len() implies group_reading(#[trigger] parts[i])
                == Some(groups[i]) by {
                if i < n {
                    assert(front[i] == parts[i]);
                    assert(before[i] == groups[i]);
                }
            }
        }
        if spell(parts, groups, false) {
            let before = groups.drop_last();
            assert forall|i: int| 0 <= i < front.len() implies group_reading(#[trigger] front[i])
                == Some(before[i]) by {
                assert(front[i] == parts[i]);
            }
            lemma_plain_pieces(front, before);
            assert(group_reading(parts[n]) == Some(groups[n]));
            assert(before.push(groups[n]) =~= groups);
        }
    }
}

proof fn lemma_dotted_is_no_group(v4: u32)
    ensures
        group_reading(v4_text(v4)) is None,
{
    lemma_v4_round_trip(v4);
    if group_reading(v4_text(v4)) is Some {
        lemma_digits_only(v4_text(v4), 16);
    }
}

/// What pieces between colons are read as, at the end of an address.
#[verifier::rlimit(40)]
pub proof fn lemma_pieces_at_end(parts: Seq<Seq<char>>, groups: Seq<u16>)
    requires
        parts.len() >= 1,
    ensures
        groups_reading(parts, true) == Some(groups) <==> spell(parts, groups, false) || spell(
            parts,
            groups,
            true,
        ),
{
    let front = parts.drop_last();
    let n = parts.len() - 1;
    lemma_plain_pieces(parts, groups);
    match group_reading(parts.last()) {
        Some(group) => {
            assert(groups_reading(parts, true) == groups_reading(parts, false));
            if spell(parts, groups, true) {
                lemma_dotted_is_no_group(
                    (groups[groups.len() - 2] * 0x1_0000 + groups[groups.len() - 1]) as u32,
                );
            }
        },
        None => {
            assert(!spell(parts, groups, false)) by {
                if spell(parts, groups, false) {
                    assert(group_reading(parts[n]) == Some(groups[n]));
                }
            }
            if groups_reading(parts, true) == Some(groups) {
                let v4 = v4_reading(parts.last()).unwrap();
                let found = groups_reading(front, false).unwrap();
                lemma_plain_pieces(front, found);
                lemma_v4_has_one_text(parts.last(), v4);
                assert(groups == found + v4_groups(v4));
                assert(groups[groups.len() - 2] * 0x1_0000 + groups[groups.len() - 1] == v4);
                assert forall|i: int| 0 <= i < n implies group_reading(#[trigger] parts[i]) == Some(
                    groups[i],
                ) by {
                    assert(front[i] == parts[i]);
                    assert(found[i] == groups[i]);
                }
            }
            if spell(parts, groups, true) {
                let hi = groups[groups.len() - 2];
                let lo = groups[groups.len() - 1];
                let v4 = (hi * 0x1_0000 + lo) as u32;
                lemma_v4_has_one_text(parts.last(), v4);
                let found = groups.take(n);
                assert forall|i: int| 0 <= i < front.len() implies group_reading(
                    #[trigger] front[i],
                ) == Some(found[i]) by {
                    assert(front[i] == parts[i]);
                }
                lemma_plain_pieces(front, found);
                assert((v4 / 0x1_0000) as u16 == hi && (v4 % 0x1_0000) as u16 == lo);
                assert(found + v4_groups(v4) =~= groups);
            }
        },
    }
}

/// An IPv6 address in which no two colons stand together: eight groups, the last
/// two perhaps as an IPv4 address.
pub proof fn lemma_v6_in_full(parts: Seq<Seq<char>>, groups: Seq<u16>)
    requires
        parts.len() >= 1,
        free_of(parts, ':'),
        joined(parts, ':').len() > 0,
        forall|i: int|
            0 <= i < joined(parts, ':').len() - 1 ==> !(#[trigger] joined(parts, ':')[i] == ':'
                && joined(parts, ':')[i + 1] == ':'),
    ensures
        spell(parts, groups, false) || spell(parts, groups, true) ==> v6_reading(
            joined(parts, ':'),
        ) == if groups.len() == 8 {
            Some(place_value(groups.map_values(|group: u16| group as nat), 0x1_0000) as u128)
        } else {
            None
        },
        (forall|g: Seq<u16>| !#[trigger] spell(parts, g, false) && !spell(parts, g, true))
            ==> v6_reading(joined(parts, ':')) is None,
{
    let text = joined(parts, ':');
    assert forall|i: int| !gap_at(text, i) by {
        if 0 <= i && i + 1 < text.len() {
            assert(!(joined(parts, ':')[i] == ':' && joined(parts, ':')[i + 1] == ':'));
        }
    }
    lemma_no_gap(text, 0);
    lemma_split_of_joined(parts, ':');
    lemma_pieces_at_end(parts, groups);
    lemma_groups_by_place(groups);
    if let Some(found) = groups_reading(parts, true) {
        lemma_pieces_at_end(parts, found);
    }
}

/// An IPv6 address in which two colons stand together: at most seven groups, the
/// last two perhaps as an IPv4 address, and zero groups in place of the two
/// colons up to eight.
#[verifier::rlimit(40)]
pub proof fn lemma_v6_shortened(
    head: Seq<Seq<char>>,
    head_groups: Seq<u16>,
    tail: Seq<Seq<char>>,
    tail_groups: Seq<u16>,
)
    requires
        free_of(head, ':'),
        free_of(tail, ':'),
        head.len() >= 1 ==> joined(head, ':').len() > 0,
        tail.len() >= 1 ==> joined(tail, ':').len() > 0,
        spell(head, head_groups, false),
        spell(tail, tail_groups, false) || spell(tail, tail_groups, true),
    ensures
        v6_reading(joined(head, ':') + seq![':', ':'] + joined(tail, ':')) == if head_groups.len()
            + tail_groups.len() <= 7 {
            let missing = Seq::new(
                (8 - head_groups.len() - tail_groups.len()) as nat,
                |i: int| 0u16,
            );
            Some(
                place_value(
                    (head_groups + missing + tail_groups).map_values(|group: u16| group as nat),
                    0x1_0000,
                ) as u128,
            )
        } else {
            None
        },
{
    let left = joined(head, ':');
    let right = joined(tail, ':');
    let text = left + seq![':', ':'] + right;
    let at = left.len() as int;
    assert(gap_at(text, at));
    lemma_head_has_no_gap(head, head_groups);
    assert forall|i: int| 0 <= i < at implies !gap_at(text, i) by {
        assert(text[i] == left[i]);
        if i + 1 < at {
            assert(text[i + 1] == left[i + 1]);
            assert(!gap_at(left, i));
        } else {
            assert(left.last() != ':');
        }
    }
    lemma_gap_found(text, 0, at);
    assert(text.take(at) =~= left);
    assert(text.skip(at + 2) =~= right);
    if head.len() >= 1 {
        lemma_split_of_joined(head, ':');
    } else {
        assert(head_groups =~= Seq::empty());
    }
    lemma_plain_pieces(head, head_groups);
    assert(side_reading(left, false) == Some(head_groups));
    if tail.len() >= 1 {
        lemma_split_of_joined(tail, ':');
        lemma_pieces_at_end(tail, tail_groups);
    } else {
        assert(tail_groups =~= Seq::empty());
    }
    assert(side_reading(right, true) == Some(tail_groups));
    if head_groups.len() + tail_groups.len() <= 7 {
        let missing = Seq::new(
            (8 - head_groups.len() - tail_groups.len()) as nat,
            |i: int| 0u16,
        );
        assert(missing =~= zeros((8 - head_groups.len() - tail_groups.len()) as nat));
        lemma_groups_by_place(head_groups + missing + tail_groups);
    }
}

/// Where two colons stand together and what stands before or after the first such
/// place spells no groups, there is no IPv6 address.
pub proof fn lemma_v6_refused(left: Seq<char>, right: Seq<char>)
    requires
        left.len() > 0 ==> left.last() != ':',
        forall|i: int|
            0 <= i < left.len() - 1 ==> !(#[trigger] left[i] == ':' && left[i + 1] == ':'),
        left.len() > 0 && (forall|parts: Seq<Seq<char>>, groups: Seq<u16>|
            left == joined(parts, ':') && free_of(parts, ':') ==> !#[trigger] spell(
                parts,
                groups,
                false,
            )) || right.len() > 0 && (forall|parts: Seq<Seq<char>>, groups: Seq<u16>|
            right == joined(parts, ':') && free_of(parts, ':') ==> !#[trigger] spell(
                parts,
                groups,
                false,
            ) && !spell(parts, groups, true)),
    ensures
        v6_reading(left + seq![':', ':'] + right) is None,
{
    let text = left + seq![':', ':'] + right;
    let at = left.len() as int;
    assert(gap_at(text, at));
    assert forall|i: int| 0 <= i < at implies !gap_at(text, i) by {
        assert(text[i] == left[i]);
        if i + 1 < at {
            assert(text[i + 1] == left[i + 1]);
            assert(!(left[i] == ':' && left[i + 1] == ':'));
        }
    }
    lemma_gap_found(text, 0, at);
    assert(text.take(at) =~= left);
    assert(text.skip(at + 2) =~= right);
    if let Some(groups) = side_reading(left, false) {
        if left.len() > 0 {
            lemma_joined_of_split(left, ':');
            lemma_plain_pieces(split(left, ':'), groups);
            assert(spell(split(left, ':'), groups, false));
        }
    }
    if let Some(groups) = side_reading(right, true) {
        if right.len() > 0 {
            lemma_joined_of_split(right, ':');
            lemma_pieces_at_end(split(right, ':'), groups);
            assert(spell(split(right, ':'), groups, false) || spell(
                split(right, ':'),
                groups,
                true,
            ));
        }
    }
}

proof fn lemma_head_has_no_gap(parts: Seq<Seq<char>>, groups: Seq<u16>)
    requires
        spell(parts, groups, false),
    ensures
        forall|i: int| !gap_at(joined(parts, ':'), i),
        parts.len() >= 1 ==> joined(parts, ':').len() >= 1 && joined(parts, ':').last() != ':',
        parts.len() == 0 ==> joined(parts, ':').len() == 0,
    decreases parts.len(),
{
    if parts.len() >= 1 {
        let n = parts.len() - 1;
        let last = parts[n];
        let text = joined(parts, ':');
        assert(group_reading(parts[n]) == Some(groups[n]));
        lemma_digits_only(last, 16);
        assert forall|k: int| 0 <= k < last.len() implies last[k] != ':' by {
            assert(last.contains(last[k]));
        }
        if parts.len() == 1 {
            assert forall|i: int| !gap_at(text, i) by {
                if 0 <= i && i + 1 < text.len() {
                    assert(last[i] != ':');
                }
            }
        } else {
            let front = parts.drop_last();
            let before = groups.drop_last();
            assert forall|i: int| 0 <= i < front.len() implies group_reading(#[trigger] front[i])
                == Some(before[i]) by {
                assert(front[i] == parts[i]);
            }
            lemma_head_has_no_gap(front, before);
            let start = joined(front, ':');
            assert(text == start + seq![':'] + last);
            assert forall|i: int| !gap_at(text, i) by {
                if 0 <= i && i + 1 < text.len() {
                    if i + 1 < start.len() {
                        assert(!gap_at(start, i));
                        assert(text[i] == start[i] && text[i + 1] == start[i + 1]);
                    } else if i + 1 == start.len() {
                        assert(text[i] == start.last());
                    } else {
                        assert(text[i + 1] == last[i - start.len()]);
                    }
                }
            }
        }
    }
}

/// Whether a text is made of pieces that spell eight groups.
pub open spec fn is_in_full(text: Seq<char>, parts: Seq<Seq<char>>, groups: Seq<u16>) -> bool {
    &&& text == joined(parts, ':')
    &&& free_of(parts, ':')
    &&& spell(parts, groups, false) || spell(parts, groups, true)
    &&& groups.len() == 8
}

/// Whether a text is made of pieces before and after two colons that spell at most
/// seven groups.
pub open spec fn is_shortened(
    text: Seq<char>,
    head: Seq<Seq<char>>,
    head_groups: Seq<u16>,
    tail: Seq<Seq<char>>,
    tail_groups: Seq<u16>,
) -> bool {
    &&& text == joined(head, ':') + seq![':', ':'] + joined(tail, ':')
    &&& free_of(head, ':')
    &&& free_of(tail, ':')
    &&& spell(head, head_groups, false)
    &&& spell(tail, tail_groups, false) || spell(tail, tail_groups, true)
    &&& head_groups.len() + tail_groups.len() <= 7
}

proof fn lemma_side_form(text: Seq<char>, at_end: bool)
    requires
        side_reading(text, at_end) is Some,
    ensures
        exists|parts: Seq<Seq<char>>|
            {
                &&& text == joined(parts, ':')
                &&& free_of(parts, ':')
                &&& #[trigger] spell(parts, side_reading(text, at_end).unwrap(), false) || (at_end
                    && spell(parts, side_reading(text, at_end).unwrap(), true))
            },
{
    let groups = side_reading(text, at_end).unwrap();
    if text.len() == 0 {
        let none = Seq::<Seq<char>>::empty();
        assert(text =~= joined(none, ':'));
        assert(free_of(none, ':'));
        assert(spell(none, groups, false));
    } else {
        let parts = split(text, ':');
        lemma_joined_of_split(text, ':');
        if at_end {
            lemma_pieces_at_end(parts, groups);
        } else {
            lemma_plain_pieces(parts, groups);
        }
        assert(spell(parts, groups, false) || (at_end && spell(parts, groups, true)));
    }
}

/// Whatever is read as an IPv6 address has one of these two forms.
pub proof fn lemma_v6_forms(text: Seq<char>)
    requires
        v6_reading(text) is Some,
    ensures
        (exists|parts: Seq<Seq<char>>, groups: Seq<u16>| #[trigger]
            is_in_full(text, parts, groups)) || (exists|
            head: Seq<Seq<char>>,
            head_groups: Seq<u16>,
            tail: Seq<Seq<char>>,
            tail_groups: Seq<u16>,
        | #[trigger]
            is_shortened(text, head, head_groups, tail, tail_groups)),
{
    match first_gap(text, 0) {
        None => {
            lemma_side_form(text, true);
            let groups = side_reading(text, true).unwrap();
            let parts = choose|parts: Seq<Seq<char>>|
                {
                    &&& text == joined(parts, ':')
                    &&& free_of(parts, ':')
                    &&& #[trigger] spell(parts, groups, false) || spell(parts, groups, true)
                };
            assert(is_in_full(text, parts, groups));
        },
        Some(at) => {
            lemma_first_gap(text, 0);
            let left = text.take(at);
            let right = text.skip(at + 2);
            assert(text =~= left + seq![':', ':'] + right);
            lemma_side_form(left, false);
            lemma_side_form(right, true);
            let head_groups = side_reading(left, false).unwrap();
            let tail_groups = side_reading(right, true).unwrap();
            let head = choose|parts: Seq<Seq<char>>|
                {
                    &&& left == joined(parts, ':')
                    &&& free_of(parts, ':')
                    &&& #[trigger] spell(parts, head_groups, false)
                };
            let tail = choose|parts: Seq<Seq<char>>|
                {
                    &&& right == joined(parts, ':')
                    &&& free_of(parts, ':')
                    &&& #[trigger] spell(parts, tail_groups, false) || spell(
                        parts,
                        tail_groups,
                        true,
                    )
                };
            assert(is_shortened(text, head, head_groups, tail, tail_groups));
        },
    }
}

proof fn lemma_first_gap(text: Seq<char>, from: int)
    ensures
        first_gap(text, from) matches Some(at) ==> gap_at(text, at),
    decreases text.len() - from,
{
    if 0 <= from && from + 1 < text.len() && !gap_at(text, from) {
        lemma_first_gap(text, from + 1);
    }
}

/// An address is read as IPv4 where it can be, and else as IPv6.
pub proof fn lemma_families(text: Seq<char>)
    ensures
        ip_reading(text) is None <==> v4_reading(text) is None && v6_reading(text) is None,
        ip_reading(text) matches Some(IpAddr::V4(v4)) ==> v4_reading(text) == Some(v4),
        ip_reading(text) matches Some(IpAddr::V6(v6)) ==> v6_reading(text) == Some(v6)
            && v4_reading(text) is None,
{
}

/// The run that an address leaves out is of zero groups, no run of zero groups is
/// longer, and every one before it is shorter.
pub proof fn lemma_left_out_run(groups: Seq<u16>, from: int, to: int)
    requires
        0 <= from <= to <= groups.len(),
        forall|i: int| from <= i < to ==> #[trigger] groups[i] == 0,
    ensures
        ({
            let (start, len) = longest_run(groups, groups.len());
            &&& 0 <= start && start + len <= groups.len()
            &&& forall|i: int| start <= i < start + len ==> #[trigger] groups[i] == 0
            &&& to - from <= len
            &&& from < start ==> to - from < len
        }),
{
    crate::ip_text_laws::lemma_longest_run(groups, groups.len());
    lemma_run_reaches(groups, from, to);
    if from < groups.len() {
        lemma_longest_so_far(groups, groups.len(), from);
    }
}

proof fn lemma_run_reaches(groups: Seq<u16>, from: int, to: int)
    requires
        0 <= from <= to <= groups.len(),
        forall|i: int| from <= i < to ==> #[trigger] groups[i] == 0,
    ensures
        zero_run(groups, from) >= to - from,
    decreases to - from,
{
    if from < to {
        assert(groups[from] == 0);
        lemma_run_reaches(groups, from + 1, to);
    }
}

proof fn lemma_longest_so_far(groups: Seq<u16>, n: nat, k: int)
    requires
        n <= groups.len(),
        0 <= k < n,
    ensures
        zero_run(groups, k) <= longest_run(groups, n).1,
        k < longest_run(groups, n).0 ==> zero_run(groups, k) < longest_run(groups, n).1,
        longest_run(groups, n).0 < n,
    decreases n,
{
    let before = longest_run(groups, (n - 1) as nat);
    if n > 1 {
        if k < n - 1 {
            lemma_longest_so_far(groups, (n - 1) as nat, k);
        } else {
            lemma_longest_so_far(groups, (n - 1) as nat, 0);
        }
    }
}

/// Eight groups are written in lower-case hexadecimal with colons between them;
/// where two or more of them in a row are zero, the longest such run is left out
/// and two colons stand for it.
#[verifier::rlimit(40)]
pub proof fn lemma_compressed_form(groups: Seq<u16>)
    ensures
        ({
            let (start, len) = longest_run(groups, groups.len());
            let texts = groups.map_values(|group: u16| numeral(group as nat, 16));
            compressed_text(groups) == if len >= 2 {
                joined(texts.take(start), ':') + seq![':', ':'] + joined(
                    texts.skip(start + len),
                    ':',
                )
            } else {
                joined(texts, ':')
            }
        }),
{
    let (start, len) = longest_run(groups, groups.len());
    let texts = groups.map_values(|group: u16| numeral(group as nat, 16));
    crate::ip_text_laws::lemma_longest_run(groups, groups.len());
    reveal_strlit("::");
    assert("::"@ =~= seq![':', ':']);
    lemma_groups_joined(groups);
    lemma_groups_joined(groups.take(start));
    lemma_groups_joined(groups.skip(start + len));
    assert(texts.take(start) =~= groups.take(start).map_values(
        |group: u16| numeral(group as nat, 16),
    ));
    assert(texts.skip(start + len) =~= groups.skip(start + len).map_values(
        |group: u16| numeral(group as nat, 16),
    ));
}

proof fn lemma_groups_of_join(groups: Seq<u16>)
    ensures
        groups_of(join_groups(groups), groups.len()) == groups,
    decreases groups.len(),
{
    if groups.len() > 0 {
        lemma_groups_of_join(groups.drop_last());
        let value = join_groups(groups);
        assert(value / 0x1_0000 == join_groups(groups.drop_last()));
        assert(value % 0x1_0000 == groups.last());
        assert(groups.drop_last().push(groups.last()) =~= groups);
    } else {
        assert(groups =~= Seq::empty());
    }
}

/// An IPv6 address from `::ffff:0.0.0.0` to `::ffff:255.255.255.255` is written
/// with its last two groups as an IPv4 address, and every other one as the eight
/// groups that spell it.
pub proof fn lemma_v6_text_by_groups(v6: u128, groups: Seq<u16>)
    requires
        groups.len() == 8,
        place_value(groups.map_values(|group: u16| group as nat), 0x1_0000) == v6,
    ensures
        v6_text(v6) == if 0xffff_0000_0000 <= v6 <= 0xffff_ffff_ffff {
            seq![':', ':', 'f', 'f', 'f', 'f', ':'] + v4_text((v6 - 0xffff_0000_0000) as u32)
        } else {
            compressed_text(groups)
        },
{
    lemma_groups_by_place(groups);
    lemma_groups_of_join(groups);
    reveal_strlit("::ffff:");
    assert("::ffff:"@ =~= seq![':', ':', 'f', 'f', 'f', 'f', ':']);
    assert(v6 / 0x1_0000_0000 == 0xffff <==> 0xffff_0000_0000 <= v6 <= 0xffff_ffff_ffff);
}

proof fn lemma_groups_joined(groups: Seq<u16>)
    ensures
        groups_text(groups) == joined(
            groups.map_values(|group: u16| numeral(group as nat, 16)),
            ':',
        ),
    decreases groups.len(),
{
    let texts = groups.map_values(|group: u16| numeral(group as nat, 16));
    if groups.len() > 1 {
        lemma_groups_joined(groups.drop_last());
        assert(texts.drop_last() =~= groups.drop_last().map_values(
            |group: u16| numeral(group as nat, 16),
        ));
        reveal_strlit(":");
        assert(":"@ =~= seq![':']);
    }
}

} // verus!

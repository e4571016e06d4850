//! Numbers as text, by the values of places.

use vstd::arithmetic::power::{lemma_pow0, lemma_pow_positive, pow};
use vstd::prelude::*;

use crate::ip_shard::requested_shards;
use crate::ip_text_laws::lemma_numeral_round_trip;
use crate::runtime_settings::positive_reading;
use crate::text::{
    all_digits, decimal_reading, digit_char, digit_value, digits_value, numeral,
};

verus! {

/// The digits in order, letters in lower case.
pub open spec fn lower_digits() -> Seq<char> {
    seq!['0', '1', '2', '3', '4', '5', '6', '7', '8', '9', 'a', 'b', 'c', 'd', 'e', 'f']
}

/// The digits in order, letters in upper case.
pub open spec fn upper_digits() -> Seq<char> {
    seq!['0', '1', '2', '3', '4', '5', '6', '7', '8', '9', 'A', 'B', 'C', 'D', 'E', 'F']
}

/// The number with the given digits, most significant first.
pub open spec fn place_value(digits: Seq<nat>, base: nat) -> nat
    decreases digits.len(),
{
    if digits.len() == 0 {
        0
    } else {
        digits[0] * pow(base as int, (digits.len() - 1) as nat) as nat + place_value(
            digits.drop_first(),
            base,
        )
    }
}

/// Whether `text` writes the given digits, letters in either case.
pub open spec fn writes(text: Seq<char>, digits: Seq<nat>, base: nat) -> bool {
    &&& text.len() == digits.len()
    &&& forall|i: int|
        0 <= i < digits.len() ==> (#[trigger] digits[i]) < base && (text[i]
            == lower_digits()[digits[i] as int] || text[i] == upper_digits()[digits[i] as int])
}

/// Which characters are digits, and of which value.
#[verifier::rlimit(40)]
pub proof fn lemma_digit_table(c: char, base: nat, value: nat)
    requires
        base <= 16,
    ensures
        digit_value(c, base) == Some(value) <==> value < base && (c == lower_digits()[value as int]
            || c == upper_digits()[value as int]),
        value < 16 ==> digit_char(value) == lower_digits()[value as int],
{
}

pub proof fn lemma_place_value_push(digits: Seq<nat>, d: nat, base: nat)
    requires
        base >= 1,
    ensures
        place_value(digits.push(d), base) == place_value(digits, base) * base + d,
    decreases digits.len(),
{
    let longer = digits.push(d);
    let b = base as int;
    lemma_pow0(b);
    if digits.len() == 0 {
        assert(longer.drop_first() =~= Seq::empty());
        assert(place_value(longer.drop_first(), base) == 0);
        assert(d * pow(b, 0) as nat == d);
        assert(place_value(digits, base) * base == 0) by (nonlinear_arith)
            requires
                place_value(digits, base) == 0,
        ;
    } else {
        let rest = digits.drop_first();
        lemma_place_value_push(rest, d, base);
        assert(longer.drop_first() =~= rest.push(d));
        let n = (digits.len() - 1) as nat;
        let p = pow(b, n);
        lemma_pow_positive(b, n);
        lemma_pow_positive(b, (n + 1) as nat);
        assert(pow(b, (n + 1) as nat) == b * p) by {
            reveal(pow);
        }
        let first = digits[0] as int;
        let tail = place_value(rest, base) as int;
        assert(first * (b * p) + (tail * b + d) == (first * p + tail) * b + d) by (nonlinear_arith);
    }
}

/// A text that writes digits is read as the sum of the digits at their places.
pub proof fn lemma_digits_by_place(text: Seq<char>, digits: Seq<nat>, base: nat)
    requires
        1 <= base <= 16,
        writes(text, digits, base),
    ensures
        digits_value(text, base) == place_value(digits, base),
        text.len() > 0 ==> all_digits(text, base),
    decreases text.len(),
{
    assert forall|i: int| 0 <= i < text.len() implies digit_value(#[trigger] text[i], base) == Some(
        digits[i],
    ) by {
        lemma_digit_table(text[i], base, digits[i]);
    }
    if text.len() > 0 {
        let n = text.len() - 1;
        let shorter = digits.drop_last();
        assert forall|i: int| 0 <= i < shorter.len() implies (#[trigger] shorter[i]) < base && (
        text.drop_last()[i] == lower_digits()[shorter[i] as int] || text.drop_last()[i]
            == upper_digits()[shorter[i] as int]) by {
            assert(shorter[i] == digits[i]);
        }
        lemma_digits_by_place(text.drop_last(), shorter, base);
        lemma_place_value_push(shorter, digits[n], base);
        assert(shorter.push(digits[n]) =~= digits);
        assert(digit_value(text[n], base) == Some(digits[n]));
    }
}

/// The digits that a text writes.
pub open spec fn digits_in(text: Seq<char>, base: nat) -> Seq<nat> {
    Seq::new(text.len(), |i: int| digit_value(text[i], base).unwrap())
}

/// A text is taken for a number only if it writes digits.
pub proof fn lemma_only_digits_are_read(text: Seq<char>, base: nat)
    requires
        1 <= base <= 16,
        all_digits(text, base),
    ensures
        text.len() > 0,
        writes(text, digits_in(text, base), base),
{
    let digits = digits_in(text, base);
    assert forall|i: int| 0 <= i < digits.len() implies (#[trigger] digits[i]) < base && (text[i]
        == lower_digits()[digits[i] as int] || text[i] == upper_digits()[digits[i] as int]) by {
        assert(digit_value(text[i], base) is Some);
        lemma_digit_table(text[i], base, digits[i]);
    }
}

/// A number is written with its digits in lower case, and without a leading zero
/// unless it is zero.
pub proof fn lemma_numeral_by_place(n: nat, base: nat)
    requires
        2 <= base <= 16,
    ensures
        exists|digits: Seq<nat>|
            {
                &&& #[trigger] writes(numeral(n, base), digits, base)
                &&& place_value(digits, base) == n
                &&& digits.len() >= 1
                &&& digits.len() > 1 ==> digits[0] != 0
            },
        forall|i: int|
            0 <= i < numeral(n, base).len() ==> lower_digits().contains(
                #[trigger] numeral(n, base)[i],
            ),
{
    let text = numeral(n, base);
    let digits = digits_in(text, base);
    lemma_numeral_round_trip(n, base);
    lemma_only_digits_are_read(text, base);
    lemma_digits_by_place(text, digits, base);
    lemma_digit_table(text[0], base, digits[0]);
    if digits.len() > 1 {
        assert(n > 0);
        assert(digit_value(text[0], base) is Some);
        assert(digits[0] != 0);
    }
    lemma_numeral_lower(n, base);
}

proof fn lemma_numeral_lower(n: nat, base: nat)
    requires
        2 <= base <= 16,
    ensures
        forall|i: int|
            0 <= i < numeral(n, base).len() ==> lower_digits().contains(
                #[trigger] numeral(n, base)[i],
            ),
    decreases n,
{
    let last = n % base;
    assert(last < 16);
    lemma_digit_table('0', base, last);
    assert(lower_digits()[last as int] == digit_char(last));
    assert(lower_digits().contains(digit_char(last)));
    if n >= base {
        assert(n / base < n) by (nonlinear_arith)
            requires
                base >= 2,
                n >= base,
        ;
        lemma_numeral_lower(n / base, base);
        let shorter = numeral(n / base, base);
        assert forall|i: int| 0 <= i < numeral(n, base).len() implies lower_digits().contains(
            #[trigger] numeral(n, base)[i],
        ) by {
            if i < shorter.len() {
                assert(numeral(n, base)[i] == shorter[i]);
            }
        }
    } else {
        assert(n % base == n) by (nonlinear_arith)
            requires
                n < base,
        ;
    }
}

proof fn lemma_leading_digit(text: Seq<char>, base: nat)
    requires
        2 <= base <= 16,
        all_digits(text, base),
        text[0] != '0',
    ensures
        digits_value(text, base) > 0,
    decreases text.len(),
{
    assert(digit_value(text[0], base) is Some);
    if text.len() == 1 {
        assert(digits_value(text.drop_last(), base) * base >= 0) by (nonlinear_arith);
        assert(text.last() == text[0]);
    } else {
        let shorter = text.drop_last();
        assert forall|i: int| 0 <= i < shorter.len() implies digit_value(
            #[trigger] shorter[i],
            base,
        ) is Some by {
            assert(shorter[i] == text[i]);
        }
        lemma_leading_digit(shorter, base);
        assert(digits_value(shorter, base) * base > 0) by (nonlinear_arith)
            requires
                digits_value(shorter, base) > 0,
                base > 0,
        ;
    }
}

/// There is one way to write a number with lower-case digits and without a
/// needless leading zero.
pub proof fn lemma_numeral_is_the_only_one(text: Seq<char>, base: nat)
    requires
        2 <= base <= 16,
        all_digits(text, base),
        forall|i: int| 0 <= i < text.len() ==> lower_digits().contains(#[trigger] text[i]),
        text.len() > 1 ==> text[0] != '0',
    ensures
        numeral(digits_value(text, base), base) == text,
    decreases text.len(),
{
    let last = text.last();
    assert(text[text.len() - 1] == last);
    assert(digit_value(last, base) is Some);
    let d = digit_value(last, base).unwrap();
    assert(lower_digits().contains(text[text.len() - 1]));
    lemma_digit_table(last, base, d);
    assert(digit_char(d) == last);
    let front = digits_value(text.drop_last(), base);
    if text.len() == 1 {
        assert(text.drop_last() =~= Seq::empty());
        assert(front * base == 0) by (nonlinear_arith)
            requires
                front == 0,
        ;
        assert(numeral(d, base) =~= text);
    } else {
        let shorter = text.drop_last();
        assert forall|i: int| 0 <= i < shorter.len() implies digit_value(
            #[trigger] shorter[i],
            base,
        ) is Some && lower_digits().contains(shorter[i]) by {
            assert(shorter[i] == text[i]);
        }
        lemma_leading_digit(shorter, base);
        lemma_numeral_is_the_only_one(shorter, base);
        let n = front * base + d;
        assert(n >= base && n / base == front && n % base == d) by {
            assert(n >= base) by (nonlinear_arith)
                requires
                    n == front * base + d,
                    front >= 1,
            ;
            vstd::arithmetic::div_mod::lemma_fundamental_div_mod_converse(
                n as int,
                base as int,
                front as int,
                d as int,
            );
        }
        assert(numeral(n, base) =~= text);
    }
}

/// Whether a text writes the given decimal digits, perhaps after a plus sign.
pub open spec fn writes_signed(text: Seq<char>, digits: Seq<nat>) -> bool {
    &&& digits.len() > 0
    &&& writes(text, digits, 10) || (text.len() > 0 && text[0] == '+' && writes(
        text.skip(1),
        digits,
        10,
    ))
}

proof fn lemma_signed(text: Seq<char>, digits: Seq<nat>)
    requires
        writes_signed(text, digits),
    ensures
        decimal_reading(text) == if place_value(digits, 10) <= usize::MAX {
            Some(place_value(digits, 10))
        } else {
            None
        },
{
    if writes(text, digits, 10) {
        assert(digits[0] < 10);
        lemma_digit_table(text[0], 10, digits[0]);
        assert(text[0] != '+');
        lemma_digits_by_place(text, digits, 10);
    } else {
        lemma_digits_by_place(text.skip(1), digits, 10);
    }
}

/// A setting is read as a number exactly when it consists of decimal digits,
/// perhaps after a plus sign, and the number fits; then it is the sum of the
/// digits at their places.
pub proof fn lemma_decimal_by_place(text: Seq<char>, value: nat)
    ensures
        decimal_reading(text) == Some(value) <==> value <= usize::MAX && exists|digits: Seq<nat>|
            #[trigger] writes_signed(text, digits) && place_value(digits, 10) == value,
{
    if decimal_reading(text) == Some(value) {
        let body = if text.len() > 0 && text[0] == '+' {
            text.skip(1)
        } else {
            text
        };
        let digits = digits_in(body, 10);
        lemma_only_digits_are_read(body, 10);
        lemma_digits_by_place(body, digits, 10);
        assert(writes_signed(text, digits));
    }
    if exists|digits: Seq<nat>| #[trigger]
        writes_signed(text, digits) && place_value(digits, 10) == value {
        let digits = choose|digits: Seq<nat>| #[trigger]
            writes_signed(text, digits) && place_value(digits, 10) == value;
        lemma_signed(text, digits);
    }
}

/// A count is taken from a setting exactly when that spells a positive number.
pub proof fn lemma_positive_by_reading(setting: Option<Seq<char>>, value: nat)
    ensures
        positive_reading(setting) == Some(value) <==> value >= 1 && (setting matches Some(text)
            && decimal_reading(text) == Some(value)),
{
}

/// The number of shards asked for is the number that the setting spells, as far
/// as that lies between 1 and 1024, and 32 if it spells none.
pub proof fn lemma_shards_asked_for(setting: Option<Seq<char>>)
    ensures
        ({
            let spelled = match setting {
                Some(text) => decimal_reading(text),
                None => None,
            };
            requested_shards(setting) == match spelled {
                Some(n) => if n == 0 {
                    1nat
                } else if n <= 1024 {
                    n
                } else {
                    1024nat
                },
                None => 32nat,
            }
        }),
{
}

} // verus!

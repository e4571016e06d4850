//! Reading and writing numbers as text.

use vstd::prelude::*;
use vstd::string::*;

verus! {

/// The characters of a string, one by one.
pub fn chars_of(text: &str) -> (res: Vec<char>)
    ensures
        res@ == text@,
{
    let mut out: Vec<char> = Vec::new();
    for c in it: text.chars()
        invariant
            out@ == it.seq().take(it.index() as int),
            it.seq() == text@,
    {
        out.push(c);
        assert(out@ =~= it.seq().take(it.index() + 1));
    }
    assert(text@.take(text@.len() as int) =~= text@);
    out
}

/// The value of a digit in a base of at most sixteen, if it is one.
pub open spec fn digit_value(c: char, base: nat) -> Option<nat> {
    let v = if '0' <= c <= '9' {
        (c as int - '0' as int)
    } else if 'a' <= c <= 'f' {
        (c as int - 'a' as int + 10)
    } else if 'A' <= c <= 'F' {
        (c as int - 'A' as int + 10)
    } else {
        16
    };
    if v < base && v < 16 {
        Some(v as nat)
    } else {
        None
    }
}

/// Whether `text` is a non-empty run of digits of the base.
pub open spec fn all_digits(text: Seq<char>, base: nat) -> bool {
    text.len() > 0 && forall|i: int|
        0 <= i < text.len() ==> digit_value(#[trigger] text[i], base) is Some
}

/// The number that a run of digits spells.
pub open spec fn digits_value(text: Seq<char>, base: nat) -> nat
    decreases text.len(),
{
    if text.len() == 0 {
        0
    } else {
        digits_value(text.drop_last(), base) * base + digit_value(text.last(), base).unwrap_or(0)
    }
}

/// What reading an unsigned decimal number gives: an optional `+`, then digits
/// only, with a value that fits.
pub open spec fn decimal_reading(text: Seq<char>) -> Option<nat> {
    let digits = if text.len() > 0 && text[0] == '+' {
        text.skip(1)
    } else {
        text
    };
    if all_digits(digits, 10) && digits_value(digits, 10) <= usize::MAX {
        Some(digits_value(digits, 10))
    } else {
        None
    }
}

/// The value of a digit in a base of at most sixteen.
pub fn digit_of(c: char, base: u32) -> (res: Option<u32>)
    requires
        base <= 16,
    ensures
        match res {
            Some(v) => digit_value(c, base as nat) == Some(v as nat),
            None => digit_value(c, base as nat) is None,
        },
{
    let v: u32 = if '0' <= c && c <= '9' {
        c as u32 - '0' as u32
    } else if 'a' <= c && c <= 'f' {
        c as u32 - 'a' as u32 + 10
    } else if 'A' <= c && c <= 'F' {
        c as u32 - 'A' as u32 + 10
    } else {
        16
    };
    if v < base {
        Some(v)
    } else {
        None
    }
}

/// A longer run of digits never spells a smaller number.
proof fn lemma_digits_value_monotone(text: Seq<char>, k: int)
    requires
        0 <= k <= text.len(),
    ensures
        digits_value(text.take(k), 10) <= digits_value(text, 10),
    decreases text.len(),
{
    if k == text.len() {
        assert(text.take(k) =~= text);
    } else {
        lemma_digits_value_monotone(text.drop_last(), k);
        assert(text.drop_last().take(k) =~= text.take(k));
    }
}

/// Reads an unsigned decimal number.
pub fn parse_decimal(text: &str) -> (res: Option<usize>)
    ensures
        match res {
            Some(v) => decimal_reading(text@) == Some(v as nat),
            None => decimal_reading(text@) is None,
        },
{
    let chars = chars_of(text);
    let start: usize = if chars.len() > 0 && chars[0] == '+' {
        1
    } else {
        0
    };
    let ghost digits = text@.skip(start as int);
    assert(text@.skip(0) =~= text@);
    if start == chars.len() {
        return None;
    }
    let mut value: usize = 0;
    let mut i: usize = start;
    assert(digits.take(0) =~= Seq::<char>::empty());
    while i < chars.len()
        invariant
            start <= i <= chars.len(),
            chars@ == text@,
            digits == text@.skip(start as int),
            decimal_reading(text@) == (if all_digits(digits, 10) && digits_value(digits, 10)
                <= usize::MAX {
                Some(digits_value(digits, 10))
            } else {
                None
            }),
            forall|j: int|
                0 <= j < i - start ==> digit_value(#[trigger] digits[j], 10) is Some,
            value == digits_value(digits.take(i - start), 10),
        decreases chars.len() - i,
    {
        assert(digits[i - start] == chars[i as int]);
        match digit_of(chars[i], 10) {
            None => {
                return None;
            },
            Some(d) => {
                let ghost longer = digits.take(i - start + 1);
                proof {
                    assert(longer.drop_last() =~= digits.take(i - start));
                    assert(longer.last() == chars[i as int]);
                    lemma_digits_value_monotone(digits, i - start + 1);
                    assert(d < 10);
                }
                if value > usize::MAX / 10 {
                    return None;
                }
                let scaled: usize = value * 10;
                if scaled > usize::MAX - d as usize {
                    return None;
                }
                value = scaled + d as usize;
                i += 1;
            },
        }
    }
    assert(digits.take(i - start) =~= digits);
    Some(value)
}

/// The character of a digit below sixteen, in lower case.
pub open spec fn digit_char(d: nat) -> char {
    if d < 10 {
        (d + 0x30) as char
    } else {
        (d + 0x57) as char
    }
}

/// The shortest text of a number in a base from two to sixteen.
pub open spec fn numeral(n: nat, base: nat) -> Seq<char>
    decreases n,
{
    if n < base || base < 2 {
        seq![digit_char(n)]
    } else {
        proof {
            assert(n / base < n) by (nonlinear_arith)
                requires
                    base >= 2,
                    n >= base,
            ;
        }
        numeral(n / base, base).push(digit_char(n % base))
    }
}

/// The one-character text of a digit below sixteen.
pub fn digit_str(d: u8) -> (res: &'static str)
    requires
        d < 16,
    ensures
        res@ == seq![digit_char(d as nat)],
{
    proof {
        reveal_strlit("0");
        reveal_strlit("1");
        reveal_strlit("2");
        reveal_strlit("3");
        reveal_strlit("4");
        reveal_strlit("5");
        reveal_strlit("6");
        reveal_strlit("7");
        reveal_strlit("8");
        reveal_strlit("9");
        reveal_strlit("a");
        reveal_strlit("b");
        reveal_strlit("c");
        reveal_strlit("d");
        reveal_strlit("e");
        reveal_strlit("f");
    }
    let res = match d {
        0 => "0",
        1 => "1",
        2 => "2",
        3 => "3",
        4 => "4",
        5 => "5",
        6 => "6",
        7 => "7",
        8 => "8",
        9 => "9",
        10 => "a",
        11 => "b",
        12 => "c",
        13 => "d",
        14 => "e",
        _ => "f",
    };
    assert(res@ =~= seq![digit_char(d as nat)]);
    res
}

/// Appends a number in the given base.
pub fn push_number(out: &mut String, n: u64, base: u64)
    requires
        2 <= base <= 16,
    ensures
        final(out)@ == old(out)@ + numeral(n as nat, base as nat),
    decreases n,
{
    let ghost before = out@;
    if n < base {
        out.append(digit_str(n as u8));
    } else {
        assert(n / base < n) by (nonlinear_arith)
            requires
                base >= 2,
                n >= base,
        ;
        assert(n % base < base) by (nonlinear_arith)
            requires
                base >= 2,
        ;
        push_number(out, n / base, base);
        out.append(digit_str((n % base) as u8));
        assert(out@ =~= before + numeral(n as nat, base as nat));
    }
}

} // verus!

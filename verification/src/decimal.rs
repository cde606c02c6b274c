//! Unsigned numbers of 32 bits as decimal text, written and read.

use vstd::prelude::*;
use vstd::std_specs::iter::IteratorSpec;
use vstd::string::StringExecFns;

verus! {

/// The character that stands for the digit `d`, for `d` below ten.
pub open spec fn digit_char(d: nat) -> char {
    if d == 0 {
        '0'
    } else if d == 1 {
        '1'
    } else if d == 2 {
        '2'
    } else if d == 3 {
        '3'
    } else if d == 4 {
        '4'
    } else if d == 5 {
        '5'
    } else if d == 6 {
        '6'
    } else if d == 7 {
        '7'
    } else if d == 8 {
        '8'
    } else {
        '9'
    }
}

/// The decimal text of `n`: its digits, the most significant first, with no
/// leading zero but for `0` itself.
pub open spec fn decimal(n: nat) -> Seq<char>
    decreases n,
{
    if n < 10 {
        seq![digit_char(n)]
    } else {
        decimal(n / 10).push(digit_char(n % 10))
    }
}

/// Whether `c` is one of the ten digits `0` to `9`.
pub open spec fn is_digit(c: char) -> bool {
    '0' <= c <= '9'
}

/// The number that the digit `c` stands for.
pub open spec fn digit_value(c: char) -> nat {
    (c as nat - '0' as nat) as nat
}

/// The number that `digits` spell, the most significant digit first. The
/// empty text spells 0, and leading zeros change nothing.
pub open spec fn digits_value(digits: Seq<char>) -> nat
    decreases digits.len(),
{
    if digits.len() == 0 {
        0
    } else {
        digits_value(digits.drop_last()) * 10 + digit_value(digits.last())
    }
}

/// Whether every character of `text` is a digit.
pub open spec fn all_digits(text: Seq<char>) -> bool {
    forall|i: int| 0 <= i < text.len() ==> is_digit(#[trigger] text[i])
}

/// What is left of `text` when one leading `+`, if there is one, is taken
/// away.
pub open spec fn unsigned_part(text: Seq<char>) -> Seq<char> {
    if text.len() > 0 && text[0] == '+' {
        text.skip(1)
    } else {
        text
    }
}

/// The number that `text` spells, if it spells one that fits in 32 bits:
/// an optional `+`, then one digit or more and nothing else. No space, no
/// `-`, no `_` is taken, and a number above `u32::MAX` is none.
pub open spec fn parse_decimal(text: Seq<char>) -> Option<u32> {
    let digits = unsigned_part(text);
    if digits.len() > 0 && all_digits(digits) && digits_value(digits) <= u32::MAX {
        Some(digits_value(digits) as u32)
    } else {
        None
    }
}

/// The digit `d` as a text of one character.
fn digit_str(d: u32) -> (s: &'static str)
    requires
        d < 10,
    ensures
        s@ == seq![digit_char(d as nat)],
{
    proof {
        reveal_strlit("0");
        reveal_strlit("1");
        reveal_strlit("2");
        reveal_strlit("3");
        reveal_strlit("4");
        reveal_strlit("5");
        reveal_strlit("6");
        reveal_strlit("7");
        reveal_strlit("8");
        reveal_strlit("9");
    }
    if d == 0 {
        "0"
    } else if d == 1 {
        "1"
    } else if d == 2 {
        "2"
    } else if d == 3 {
        "3"
    } else if d == 4 {
        "4"
    } else if d == 5 {
        "5"
    } else if d == 6 {
        "6"
    } else if d == 7 {
        "7"
    } else if d == 8 {
        "8"
    } else {
        "9"
    }
}

/// Writes the decimal text of `n` behind what `text` holds.
pub fn push_decimal(text: &mut String, n: u32)
    ensures
        final(text)@ == old(text)@ + decimal(n as nat),
    decreases n,
{
    if n >= 10 {
        push_decimal(text, n / 10);
    }
    text.append(digit_str(n % 10));
}

/// The decimal text of `n`.
pub fn to_decimal(n: u32) -> (text: String)
    ensures
        text@ == decimal(n as nat),
{
    let mut text = String::new();
    push_decimal(&mut text, n);
    text
}

/// A text of digits spells no less than any of its beginnings.
proof fn lemma_digits_value_grows(digits: Seq<char>, k: int)
    requires
        0 <= k <= digits.len(),
    ensures
        digits_value(digits.take(k)) <= digits_value(digits),
    decreases digits.len() - k,
{
    if k == digits.len() {
        assert(digits.take(k) == digits);
    } else {
        lemma_digits_value_grows(digits, k + 1);
        assert(digits.take(k + 1).drop_last() == digits.take(k));
    }
}

/// Reads `text` as an unsigned decimal number of 32 bits.
pub fn parse_u32(text: &str) -> (parsed: Option<u32>)
    ensures
        parsed == parse_decimal(text@),
{
    let ghost digits = unsigned_part(text@);
    let mut rest = text.chars();
    let mut next = rest.next();
    if let Some(c) = next {
        if c == '+' {
            next = rest.next();
        }
    }
    let ghost mut k: int = 0;
    assert(digits.take(0) == Seq::<char>::empty());
    if next.is_none() {
        return None;
    }
    let mut value: u32 = 0;
    loop
        invariant
            digits == unsigned_part(text@),
            0 <= k <= digits.len(),
            digits.len() > 0,
            all_digits(digits.take(k)),
            value == digits_value(digits.take(k)),
            next == if k < digits.len() {
                Some(digits[k])
            } else {
                None
            },
            rest.remaining() == if k < digits.len() {
                digits.skip(k + 1)
            } else {
                Seq::<char>::empty()
            },
        ensures
            k == digits.len(),
        decreases digits.len() - k,
    {
        match next {
            None => {
                break ;
            },
            Some(c) => {
                if !('0' <= c && c <= '9') {
                    return None;
                }
                let d: u32 = c as u32 - '0' as u32;
                proof {
                    assert(digits.take(k + 1).drop_last() == digits.take(k));
                    assert(digits.take(k + 1).last() == c);
                    lemma_digits_value_grows(digits, k + 1);
                }
                if value > (u32::MAX - d) / 10 {
                    return None;
                }
                value = value * 10 + d;
                next = rest.next();
                proof {
                    k = k + 1;
                }
            },
        }
    }
    assert(digits.take(k) == digits);
    Some(value)
}

} // verus!

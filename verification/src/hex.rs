//! Hexadecimal numbers in text.

use vstd::prelude::*;
use vstd::string::*;

verus! {

/// The value of a hexadecimal digit.
pub open spec fn digit_value(digit: u8) -> Option<nat> {
    if 0x30 <= digit <= 0x39 {
        Some((digit - 0x30) as nat)
    } else if 0x41 <= digit <= 0x46 {
        Some((digit - 0x41 + 10) as nat)
    } else if 0x61 <= digit <= 0x66 {
        Some((digit - 0x61 + 10) as nat)
    } else {
        None
    }
}

/// The number that hexadecimal digits stand for, if all of them are digits.
pub open spec fn digits_value(digits: Seq<u8>) -> Option<nat>
    decreases digits.len(),
{
    if digits.len() == 0 {
        Some(0)
    } else {
        match (digits_value(digits.drop_last()), digit_value(digits.last())) {
            (Some(high), Some(low)) => Some(16 * high + low),
            _ => None,
        }
    }
}

/// The 32-bit number that a hexadecimal text stands for: at least one digit, with
/// an optional plus sign in front.
pub open spec fn hex_value(text: Seq<u8>) -> Option<u32> {
    let digits = if text.len() > 0 && text[0] == 0x2b {
        text.skip(1)
    } else {
        text
    };
    match digits_value(digits) {
        Some(value) => if digits.len() > 0 && value <= u32::MAX {
            Some(value as u32)
        } else {
            None
        },
        None => None,
    }
}

/// The value of a hexadecimal digit.
fn read_digit(digit: u8) -> (value: Option<u8>)
    ensures
        match value {
            Some(found) => digit_value(digit) == Some(found as nat) && found < 16,
            None => digit_value(digit) is None,
        },
{
    if 0x30 <= digit && digit <= 0x39 {
        Some(digit - 0x30)
    } else if 0x41 <= digit && digit <= 0x46 {
        Some(digit - 0x41 + 10)
    } else if 0x61 <= digit && digit <= 0x66 {
        Some(digit - 0x61 + 10)
    } else {
        None
    }
}

proof fn lemma_digits_grow(digits: Seq<u8>, count: int)
    requires
        0 <= count <= digits.len(),
    ensures
        digits_value(digits.take(count)) is None ==> digits_value(digits) is None,
        digits_value(digits) matches Some(whole) ==> digits_value(digits.take(count)) is Some
            && digits_value(digits.take(count)).unwrap() <= whole,
    decreases digits.len(),
{
    if count < digits.len() {
        assert(digits.drop_last().take(count) == digits.take(count));
        lemma_digits_grow(digits.drop_last(), count);
    } else {
        assert(digits.take(count) == digits);
    }
}

/// Reads the 32-bit number that a hexadecimal text stands for.
pub fn parse_hex(text: &[u8]) -> (value: Option<u32>)
    ensures
        value == hex_value(text@),
{
    let start: usize = if text.len() > 0 && text[0] == 0x2b {
        1
    } else {
        0
    };
    let ghost digits = if text@.len() > 0 && text@[0] == 0x2b {
        text@.skip(1)
    } else {
        text@
    };
    assert(digits == text@.skip(start as int));
    if text.len() == start {
        return None;
    }
    let mut value: u64 = 0;
    let mut index: usize = start;
    assert(digits.take(0).len() == 0);
    while index < text.len()
        invariant
            start <= index <= text@.len(),
            start <= 1,
            digits == text@.skip(start as int),
            digits_value(digits.take(index - start)) == Some(value as nat),
            value <= u32::MAX,
            hex_value(text@) == (match digits_value(digits) {
                Some(whole) => if digits.len() > 0 && whole <= u32::MAX {
                    Some(whole as u32)
                } else {
                    None
                },
                None => None,
            }),
        decreases text.len() - index,
    {
        let ghost next = digits.take(index - start + 1);
        proof {
            assert(next.drop_last() == digits.take(index - start));
            assert(next.last() == text@[index as int]);
            lemma_digits_grow(digits, index - start + 1);
        }
        match read_digit(text[index]) {
            Some(digit) => {
                value = value * 16 + digit as u64;
            },
            None => {
                return None;
            },
        }
        if value > 0xffff_ffff {
            return None;
        }
        index = index + 1;
    }
    assert(digits.take(index - start) == digits);
    Some(value as u32)
}

/// The digits of a number, at least `width` of them.
pub open spec fn hex_digits(value: nat, width: nat) -> Seq<char>
    decreases width,
{
    if width == 0 {
        Seq::empty()
    } else {
        hex_digits(value / 16, (width - 1) as nat).push(hex_char(value % 16))
    }
}

/// The lower-case digit of a value below sixteen.
pub open spec fn hex_char(value: nat) -> char {
    if value < 10 {
        (48 + value) as char
    } else {
        (87 + value) as char
    }
}

/// Appends the lowest `width` hexadecimal digits of a number.
pub fn append_hex(text: &mut String, value: u32, width: u8)
    ensures
        final(text)@ == old(text)@ + hex_digits(value as nat, width as nat),
    decreases width,
{
    if width > 0 {
        append_hex(text, value / 16, width - 1);
        let digit: u8 = (value % 16) as u8;
        text.push(
            if digit < 10 {
                (48 + digit) as char
            } else {
                (87 + digit) as char
            },
        );
    }
    assert(text@ == old(text)@ + hex_digits(value as nat, width as nat));
}

} // verus!

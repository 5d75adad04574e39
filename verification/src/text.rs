//! Small helpers for building messages.

use vstd::prelude::*;
use vstd::string::*;

verus! {

/// `String::push` appends the character to the end of the string.
pub assume_specification[ String::push ](text: &mut String, ch: char)
    ensures
        final(text)@ == old(text)@.push(ch),
;

/// The text that bytes stand for once every ill-formed part is replaced.
pub uninterp spec fn lossy_text(bytes: Seq<u8>) -> Seq<char>;

/// `String::from_utf8_lossy`: the text of the bytes, with ill-formed parts
/// replaced. ASCII bytes are kept as they are.
#[verifier::external_body]
pub(crate) fn lossy_string(bytes: &[u8]) -> (text: String)
    ensures
        text@ == lossy_text(bytes@),
        (forall|i: int| 0 <= i < bytes@.len() ==> #[trigger] bytes@[i] < 128) ==> text@ == Seq::new(
            bytes@.len(),
            |i: int| bytes@[i] as char,
        ),
{
    String::from_utf8_lossy(bytes).into_owned()
}

/// The decimal digit for a number below ten.
pub open spec fn digit_char(digit: nat) -> char {
    (48 + digit) as char
}

/// The decimal numeral of a natural number, without leading zeros.
pub open spec fn decimal(value: nat) -> Seq<char>
    decreases value,
{
    if value < 10 {
        seq![digit_char(value)]
    } else {
        decimal(value / 10).push(digit_char(value % 10))
    }
}

/// Two texts joined into a new string.
pub fn concat(left: &str, right: &str) -> (text: String)
    ensures
        text@ == left@ + right@,
{
    let mut text = left.to_owned();
    text.append(right);
    text
}

/// Appends the decimal numeral of `value`.
pub fn append_decimal(text: &mut String, value: u64)
    ensures
        final(text)@ == old(text)@ + decimal(value as nat),
    decreases value,
{
    if value >= 10 {
        append_decimal(text, value / 10);
    }
    let digit: u8 = (value % 10) as u8;
    text.push((48 + digit) as char);
}

/// A number between two fixed texts.
pub fn numbered(before: &str, value: u64, after: &str) -> (text: String)
    ensures
        text@ == before@ + decimal(value as nat) + after@,
{
    let mut text = before.to_owned();
    append_decimal(&mut text, value);
    text.append(after);
    text
}

/// A fixed text followed by a number.
pub fn labelled(before: &str, value: u64) -> (text: String)
    ensures
        text@ == before@ + decimal(value as nat),
{
    let mut text = before.to_owned();
    append_decimal(&mut text, value);
    text
}

} // verus!

//! Case-insensitive names.

use vstd::prelude::*;
use vstd::string::*;

verus! {

/// An ASCII letter in lower case; any other character as it is.
pub open spec fn lower_char(ch: char) -> char {
    if 'A' <= ch && ch <= 'Z' {
        ((ch as u32) + 32) as char
    } else {
        ch
    }
}

/// A text with its ASCII letters in lower case.
pub open spec fn lower(text: Seq<char>) -> Seq<char> {
    text.map_values(|ch: char| lower_char(ch))
}

/// Two texts are the same up to the case of ASCII letters.
pub open spec fn same_name(left: Seq<char>, right: Seq<char>) -> bool {
    lower(left) == lower(right)
}

/// `str::eq_ignore_ascii_case`: whether two texts are the same up to the case of
/// ASCII letters.
pub assume_specification[ str::eq_ignore_ascii_case ](left: &str, right: &str) -> (same: bool)
    ensures
        same == same_name(left@, right@),
;

} // verus!

//! What the standard library knows of characters, and its quoted form of a
//! string.

use vstd::prelude::*;

verus! {

/// Whether a character has the Unicode property `Uppercase`.
pub uninterp spec fn is_upper(c: char) -> bool;

/// The uppercase form of a character, which may be more than one character.
pub uninterp spec fn upper_of(c: char) -> Seq<char>;

/// Whether a character is a letter or a number.
pub uninterp spec fn is_letter_or_digit(c: char) -> bool;

/// The form in which a string is shown for debugging: quoted and escaped.
pub uninterp spec fn debug_form(s: Seq<char>) -> Seq<char>;

/// `char::is_uppercase`: it is a property of the character alone.
pub assume_specification[ char::is_uppercase ](c: char) -> (r: bool)
    ensures
        r == is_upper(c),
;

/// `char::is_alphanumeric`: it is a property of the character alone.
pub assume_specification[ char::is_alphanumeric ](c: char) -> (r: bool)
    ensures
        r == is_letter_or_digit(c),
;

/// `char::to_uppercase`, collected: it is a function of the character alone.
#[verifier::external_body]
pub(crate) fn to_uppercase(c: char) -> (r: String)
    ensures
        r@ == upper_of(c),
{
    c.to_uppercase().collect()
}

/// `str` in the form of its `Debug`: it is a function of the characters alone.
#[verifier::external_body]
pub(crate) fn debug_str(s: &str) -> (r: String)
    ensures
        r@ == debug_form(s@),
{
    format!("{:?}", s)
}

} // verus!

//! Identifiers of sessions, discoveries and cursors, and how they are written.

use uuid::Uuid;
use vstd::arithmetic::power::pow;
use vstd::prelude::*;

use crate::number::digit_char;

verus! {

/// The hexadecimal digit of `id` that has `i` of its 32 digits before it.
pub open spec fn hex_digit(id: u128, i: int) -> char {
    digit_char(((id as int / pow(16, (31 - i) as nat)) % 16) as nat)
}

/// How many hyphens stand before place `i` of a written identifier.
pub open spec fn hyphens_before(i: int) -> int {
    if i <= 8 {
        0
    } else if i <= 13 {
        1
    } else if i <= 18 {
        2
    } else if i <= 23 {
        3
    } else {
        4
    }
}

/// `id` as 32 lower-case hexadecimal digits in groups of 8, 4, 4, 4 and 12,
/// with hyphens between the groups.
pub open spec fn id_text(id: u128) -> Seq<char> {
    Seq::new(
        36,
        |i: int|
            if i == 8 || i == 13 || i == 18 || i == 23 {
                '-'
            } else {
                hex_digit(id, i - hyphens_before(i))
            },
    )
}

/// `Uuid::from_u128` takes the number as the identifier's 128 bits, the most
/// significant first, and `to_string` writes the hyphenated lower-case form.
#[verifier::external_body]
pub(crate) fn write_id(id: u128) -> (text: String)
    ensures
        text@ == id_text(id),
{
    Uuid::from_u128(id).to_string()
}

} // verus!

//! Fresh ids.

use vstd::prelude::*;

verus! {

/// A character of a hyphenated id: a small hexadecimal digit.
pub open spec fn is_id_digit(c: char) -> bool {
    '0' <= c <= '9' || 'a' <= c <= 'f'
}

/// Whether a text is shaped like a hyphenated id: thirty-six characters, small
/// hexadecimal digits with four hyphens between them.
pub open spec fn is_hyphenated_id(text: Seq<char>) -> bool {
    &&& text.len() == 36
    &&& forall|i: int|
        0 <= i < 36 ==> if i == 8 || i == 13 || i == 18 || i == 23 {
            #[trigger] text[i] == '-'
        } else {
            is_id_digit(text[i])
        }
}

/// `uuid::Uuid::new_v4`, written by its `to_string`: a hyphenated id in small digits.
/// Which one is left to chance, and that no two are alike is not stated.
#[verifier::external_body]
pub(crate) fn fresh_id() -> (id: String)
    ensures
        is_hyphenated_id(id@),
{
    uuid::Uuid::new_v4().to_string()
}

} // verus!

//! Account identifiers of the host network.

use vstd::prelude::*;

verus! {

/// `c` separates the parts of an account id.
pub open spec fn is_separator(c: char) -> bool {
    c == '-' || c == '_' || c == '.'
}

/// `c` may stand in an account id.
pub open spec fn is_id_char(c: char) -> bool {
    ('a' <= c && c <= 'z') || ('0' <= c && c <= '9') || is_separator(c)
}

/// A well-formed account id: 2 to 64 lower-case letters, digits and
/// separators, neither starting nor ending with a separator, and with no two
/// separators side by side.
pub open spec fn is_account_id(s: Seq<char>) -> bool {
    &&& 2 <= s.len() <= 64
    &&& forall|i: int| 0 <= i < s.len() ==> is_id_char(#[trigger] s[i])
    &&& !is_separator(s[0])
    &&& !is_separator(s.last())
    &&& forall|i: int|
        0 <= i < s.len() - 1 ==> !(is_separator(#[trigger] s[i]) && is_separator(s[i + 1]))
}

/// Relies on `near_sdk::env::is_valid_account_id`, which accepts exactly the
/// ids of the form above (any byte outside `a-z`, `0-9`, `-`, `_`, `.` is
/// rejected, so counting bytes or characters agrees).
#[verifier::external_body]
pub(crate) fn valid_account_id(s: &String) -> (r: bool)
    ensures
        r == is_account_id(s@),
{
    near_sdk::env::is_valid_account_id(s.as_bytes())
}

} // verus!

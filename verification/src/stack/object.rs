//! The ids of objects in a repository.

use crate::stack::identity::message_result;
use crate::text::{byte_len, Text};
use vstd::prelude::*;

verus! {

/// A hexadecimal digit.
pub open spec fn is_hex(c: char) -> bool {
    let n = c as u32;
    48 <= n <= 57 || 97 <= n <= 102 || 65 <= n <= 70
}

/// A hexadecimal digit in lower case.
pub open spec fn lower_hex(c: char) -> char {
    let n = c as u32;
    if 65 <= n <= 70 {
        ((n + 32) as u32) as char
    } else {
        c
    }
}

/// The id that a text writes: at most forty hexadecimal digits, filled up with
/// zeros, in lower case.
pub open spec fn object_id(s: Text) -> Result<Text, Text> {
    if s.len() == 0 {
        Err("unable to parse OID - too short"@)
    } else if byte_len(s) > 40 {
        Err("unable to parse OID - too long"@)
    } else if exists|i: int| 0 <= i < s.len() && !is_hex(#[trigger] s[i]) {
        Err("unable to parse OID - contains invalid characters"@)
    } else {
        Ok(
            Seq::new(
                40,
                |i: int|
                    if i < s.len() {
                        lower_hex(s[i])
                    } else {
                        '0'
                    },
            ),
        )
    }
}

/// `git2::Oid::from_str`, with the id written out again by its `Display` and an
/// error by its message: a text of one to forty hexadecimal digits is an id, to
/// which zeros are added at the end; every other text is refused for its length or,
/// where that is in order, for its characters.
#[verifier::external_body]
pub(crate) fn parse_oid(s: &str) -> (r: Result<String, String>)
    ensures
        message_result(r) == object_id(s@),
{
    match git2::Oid::from_str(s) {
        Ok(oid) => Ok(oid.to_string()),
        Err(error) => Err(error.message().to_owned()),
    }
}

} // verus!

//! Identifier parsing: requests carry ids as text, the core holds them as
//! 128-bit values.

use vstd::prelude::*;
use crate::types::ServiceError;

verus! {

/// The 128-bit value encoded by an id's textual form, if it parses.  The
/// result depends on the text alone.
pub uninterp spec fn uuid_of(s: Seq<char>) -> Option<u128>;

/// Relies on uuid::Uuid::parse_str: deterministic in the input text; the
/// value is the identifier's 128-bit big-endian form.
#[verifier::external_body]
fn parse_uuid(s: &str) -> (r: Option<u128>)
    ensures
        r == uuid_of(s@),
{
    uuid::Uuid::parse_str(s).ok().map(|u| u.as_u128())
}

/// Parse one id, rejecting malformed text.
pub fn parse_string_to_uuid(s: &str) -> (r: Result<u128, ServiceError>)
    ensures
        match r {
            Ok(v) => uuid_of(s@) == Some(v),
            Err(e) => e == ServiceError::InvalidArgument && uuid_of(s@) is None,
        },
{
    match parse_uuid(s) {
        Some(v) => Ok(v),
        None => Err(ServiceError::InvalidArgument),
    }
}

} // verus!

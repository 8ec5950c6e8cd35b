//! Authentication: bearer subjects and elevation passwords.

use vstd::prelude::*;
use vstd::string::StrSliceExecFns;
use crate::ids::uuid_of;
use crate::types::ServiceError;

verus! {

/// Why a bearer token was not accepted.
#[derive(Clone, Copy, Debug, PartialEq, Eq, Structural)]
pub enum TokenFailure {
    /// The token does not have the shape of a signed token.
    Invalid,
    /// The token's expiry lies in the past.
    Expired,
    /// Signature, claims or audience could not be validated.
    Undecodable,
}

/// Relies on jsonwebtoken::decode with HS256: verifies the token's
/// signature against the secret, its expiry against the clock, and its
/// audience claim; on success hands back the `sub` claim if one is present.
/// The verdict depends on the clock, so nothing more is assumed of it.
#[verifier::external_body]
fn decode_token_sub(token: &str, secret: &[u8], audience: &str) -> (r: Result<
    Option<String>,
    TokenFailure,
>) {
    let key = jsonwebtoken::DecodingKey::from_secret(secret);
    let mut validation = jsonwebtoken::Validation::new(jsonwebtoken::Algorithm::HS256);
    validation.set_audience(&[audience]);
    match jsonwebtoken::decode::<serde_json::Value>(token, &key, &validation) {
        Ok(data) => Ok(data.claims.get("sub").and_then(|v| v.as_str()).map(|s| s.to_string())),
        Err(e) => Err(match e.kind() {
            jsonwebtoken::errors::ErrorKind::InvalidToken => TokenFailure::Invalid,
            jsonwebtoken::errors::ErrorKind::ExpiredSignature => TokenFailure::Expired,
            _ => TokenFailure::Undecodable,
        }),
    }
}

/// Map one decode outcome to the caller's identity: a missing or malformed
/// `sub` claim is rejected, any decode failure is an authentication
/// failure.
pub fn user_from_decode(outcome: Result<Option<String>, TokenFailure>) -> (r: Result<
    u128,
    ServiceError,
>)
    ensures
        match r {
            Ok(v) => match outcome {
                Ok(Some(s)) => uuid_of(s@) == Some(v),
                _ => false,
            },
            Err(ServiceError::InvalidArgument) => match outcome {
                Ok(Some(s)) => uuid_of(s@) is None,
                _ => false,
            },
            Err(ServiceError::Unauthenticated) => outcome matches Ok(None) || outcome is Err,
            Err(_) => false,
        },
{
    match outcome {
        Ok(Some(s)) => match crate::ids::parse_string_to_uuid(s.as_str()) {
            Ok(v) => Ok(v),
            Err(_) => Err(ServiceError::InvalidArgument),
        },
        Ok(None) => Err(ServiceError::Unauthenticated),
        Err(_) => Err(ServiceError::Unauthenticated),
    }
}

/// Decode a bearer token under the given secret and audience and extract
/// the caller's identity.
pub fn bearer_user(token: &str, secret: &[u8], audience: &str) -> (r: Result<u128, ServiceError>)
    ensures
        match r {
            Ok(_) => true,
            Err(e) => e == ServiceError::InvalidArgument || e == ServiceError::Unauthenticated,
        },
{
    user_from_decode(decode_token_sub(token, secret, audience))
}

/// The index of the first space of the header, marking off the scheme.
pub open spec fn is_first_space(s: Seq<char>, i: int) -> bool {
    0 <= i < s.len() && s[i] == ' ' && forall|k: int| 0 <= k < i ==> s[k] != ' '
}

/// Split an authorization header into scheme and token: the scheme must be
/// `Bearer`, the rest of the header is the token.
pub fn split_bearer(header: &str) -> (r: Result<String, ServiceError>)
    ensures
        match r {
            Ok(tok) => exists|i: int|
                #[trigger] is_first_space(header@, i) && header@.subrange(0, i) =~= "Bearer"@
                    && tok@ == header@.subrange(i + 1, header@.len() as int),
            Err(e) => e == ServiceError::InvalidArgument && forall|i: int|
                #[trigger] is_first_space(header@, i) ==> header@.subrange(0, i) != "Bearer"@,
        },
{
    let n = header.unicode_len();
    let mut i: usize = 0;
    while i < n
        invariant
            n == header@.len(),
            i <= n,
            forall|k: int| 0 <= k < i ==> header@[k] != ' ',
        decreases n - i,
    {
        let c = header.get_char(i);
        if c == ' ' {
            proof {
                assert(is_first_space(header@, i as int));
            }
            let scheme = header.substring_char(0, i);
            let expected = "Bearer";
            if scheme.to_owned() == expected.to_owned() {
                let tok = header.substring_char(i + 1, n).to_owned();
                return Ok(tok);
            } else {
                proof {
                    assert forall|k: int| #[trigger]
                        is_first_space(header@, k) implies header@.subrange(0, k)
                        != "Bearer"@ by {
                        assert(k == i as int) by {
                            if k < i as int {
                                assert(header@[k] != ' ');
                            }
                            if k > i as int {
                                assert(header@[i as int] != ' ');
                            }
                        }
                    }
                }
                return Err(ServiceError::InvalidArgument);
            }
        }
        i = i + 1;
    }
    proof {
        assert forall|k: int| #[trigger] is_first_space(header@, k) implies header@.subrange(
            0,
            k,
        ) != "Bearer"@ by {
            assert(header@[k] != ' ');
        }
    }
    Err(ServiceError::InvalidArgument)
}

/// Verdict of the bcrypt check for a password against a stored hash; it
/// depends on the two arguments alone.  An unparsable hash has no verdict.
pub uninterp spec fn bcrypt_verdict(password: Seq<char>, hash: Seq<char>) -> Option<bool>;

/// Relies on bcrypt::verify: re-hashes the password with the cost and salt
/// carried by `hash` and compares; deterministic in its two arguments.
#[verifier::external_body]
fn bcrypt_verify(password: &str, hash: &str) -> (r: Option<bool>)
    ensures
        r == bcrypt_verdict(password@, hash@),
{
    bcrypt::verify(password, hash).ok()
}

/// The elevation password is accepted exactly when bcrypt affirms it.
pub open spec fn password_accepted(password: Seq<char>, hash: Seq<char>) -> bool {
    bcrypt_verdict(password, hash) == Some(true)
}

/// Whether the elevation password matches the stored hash; a hash that
/// bcrypt cannot parse matches nothing.
pub fn verify_password(password: &str, hash: &str) -> (r: bool)
    ensures
        r == password_accepted(password@, hash@),
{
    match bcrypt_verify(password, hash) {
        Some(b) => b,
        None => false,
    }
}

/// Decide whether a subscription may proceed and with which standing: a
/// strategy is readable by everyone when public, else only by its author.
pub fn authorize_subscription(
    is_public: bool,
    author: u128,
    bearer_user: Option<u128>,
) -> (r: Result<bool, ServiceError>)
    ensures
        ({
            let is_author = bearer_user == Some(author);
            match r {
                Ok(a) => a == is_author && (is_public || is_author),
                Err(e) => e == ServiceError::PermissionDenied && !is_public && !is_author,
            }
        }),
{
    let is_author = match bearer_user {
        Some(u) => u == author,
        None => false,
    };
    if !is_public && !is_author {
        Err(ServiceError::PermissionDenied)
    } else {
        Ok(is_author)
    }
}

} // verus!

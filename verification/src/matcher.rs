//! The check of a login attempt against a stored credential.

use crate::credential::{Credential, CredentialView, LoginAttempt, LoginAttemptView};
use crate::hasher::{verify, verify_spec};
use crate::primitive::fixed_time_eq;
use vstd::prelude::*;
use vstd::utf8::{encode_utf8, encode_utf8_decode_utf8};

verus! {

/// Whether the attempt names the stored identity and its secret matches the
/// stored hash. A stored hash that is no encoded hash matches nothing.
pub open spec fn match_spec(attempt: LoginAttemptView, stored: CredentialView) -> bool {
    attempt.identity == stored.identity && verify_spec(attempt.secret, stored.hash) == Some(true)
}

/// Two strings are equal exactly when their bytes are.
pub proof fn lemma_text_by_bytes(a: Seq<char>, b: Seq<char>)
    ensures
        (encode_utf8(a) == encode_utf8(b)) <==> a == b,
{
    encode_utf8_decode_utf8(a);
    encode_utf8_decode_utf8(b);
}

/// Compares two byte strings in time that depends on their lengths alone.
pub fn constant_time_eq(lhs: &[u8], rhs: &[u8]) -> (same: bool)
    ensures
        same == (lhs@ == rhs@),
{
    if lhs.len() == 0 && rhs.len() == 0 {
        proof {
            assert(lhs@ =~= rhs@);
        }
        true
    } else {
        fixed_time_eq(lhs, rhs)
    }
}

/// Checks identity and secret of `attempt` against `stored`.
///
/// Both checks are always carried out, the costly one on the secret also
/// where the identity already differs, and their outcomes are combined only
/// afterwards.
pub fn identities_and_secret_match(attempt: &LoginAttempt, stored: &Credential) -> (matched: bool)
    ensures
        matched == match_spec(attempt@, stored@),
{
    proof {
        lemma_text_by_bytes(attempt.identity@, stored.identity@);
    }
    let same_identity = constant_time_eq(
        attempt.identity.as_str().as_bytes(),
        stored.identity.as_str().as_bytes(),
    );
    let same_secret = match verify(attempt.secret.as_str(), stored.hash.as_str()) {
        Ok(same) => same,
        Err(_) => false,
    };
    same_identity && same_secret
}

} // verus!

//! Registration, and login with lazy upgrade of stale credentials.
//!
//! Nothing here is stored: a caller hands in what it has loaded and persists
//! what it gets back.

use crate::credential::{Credential, CredentialView, LoginAttempt, LoginAttemptView};
use crate::error::AuthError;
use crate::hasher::{
    fresh_salt, hash_spec, hash_with_salt, lemma_round_trip, verify_spec, SALT_LEN,
};
use crate::matcher::{identities_and_secret_match, match_spec};
use crate::params::CostParameters;
use vstd::prelude::*;

verus! {

/// How a login attempt ended.
#[derive(Clone, Debug, PartialEq, Eq)]
pub enum VerificationOutcome {
    /// Identity and secret matched. Where the stored parameters were stale,
    /// `upgraded_credential` holds the credential to store in place of the old one.
    Accepted { upgraded_credential: Option<Credential> },
    /// They did not match, or the stored hash was unreadable, or the upgrade
    /// that was due could not be made.
    Rejected,
}

/// An outcome as the contracts see it.
pub enum OutcomeView {
    Accepted { upgraded_credential: Option<CredentialView> },
    Rejected,
}

impl View for VerificationOutcome {
    type V = OutcomeView;

    open spec fn view(&self) -> OutcomeView {
        match *self {
            VerificationOutcome::Accepted { upgraded_credential: Some(credential) } => {
                OutcomeView::Accepted { upgraded_credential: Some(credential@) }
            },
            VerificationOutcome::Accepted { upgraded_credential: None } => OutcomeView::Accepted {
                upgraded_credential: None,
            },
            VerificationOutcome::Rejected => OutcomeView::Rejected,
        }
    }
}

/// What follows from the check of an attempt.
#[derive(Clone, Copy, Debug, PartialEq, Eq, Structural)]
pub enum Decision {
    /// The attempt did not match.
    Reject,
    /// It matched, and the stored parameters are the current ones.
    Accept,
    /// It matched, and the secret is to be hashed again under the current parameters.
    Upgrade,
}

/// The decision for a check that ended in `matched`.
pub open spec fn decide_spec(matched: bool, stored: CostParameters, current: CostParameters)
    -> Decision {
    if !matched {
        Decision::Reject
    } else if stored == current {
        Decision::Accept
    } else {
        Decision::Upgrade
    }
}

/// The credential that registration makes of an attempt under `salt`.
pub open spec fn credential_spec(
    attempt: LoginAttemptView,
    params: CostParameters,
    salt: Seq<u8>,
) -> CredentialView {
    CredentialView {
        identity: attempt.identity,
        parameters: params,
        hash: hash_spec(attempt.secret, params, salt),
    }
}

/// The outcome of a login where an upgrade, if one is due, uses `salt`.
pub open spec fn outcome_spec(
    attempt: LoginAttemptView,
    stored: CredentialView,
    current: CostParameters,
    salt: Seq<u8>,
) -> OutcomeView {
    match decide_spec(match_spec(attempt, stored), stored.parameters, current) {
        Decision::Reject => OutcomeView::Rejected,
        Decision::Accept => OutcomeView::Accepted { upgraded_credential: None },
        Decision::Upgrade => OutcomeView::Accepted {
            upgraded_credential: Some(credential_spec(attempt, current, salt)),
        },
    }
}

/// An attempt matches the credential that registration made of it.
pub proof fn lemma_registered_matches(
    attempt: LoginAttemptView,
    params: CostParameters,
    salt: Seq<u8>,
)
    requires
        params.is_valid(),
    ensures
        match_spec(attempt, credential_spec(attempt, params, salt)),
{
    lemma_round_trip(attempt.secret, params, salt);
}

/// A matching attempt on a credential with stale parameters is accepted with
/// a new credential: it stands under the current parameters, keeps the
/// identity, and the same attempt matches it.
pub proof fn lemma_stale_is_upgraded(
    attempt: LoginAttemptView,
    stored: CredentialView,
    current: CostParameters,
    salt: Seq<u8>,
)
    requires
        current.is_valid(),
        match_spec(attempt, stored),
        stored.parameters != current,
    ensures
        outcome_spec(attempt, stored, current, salt) matches OutcomeView::Accepted {
            upgraded_credential: Some(upgraded),
        } && upgraded.parameters == current && upgraded.identity == stored.identity
            && verify_spec(attempt.secret, upgraded.hash) == Some(true) && match_spec(
            attempt,
            upgraded,
        ) && outcome_spec(attempt, upgraded, current, salt) == (OutcomeView::Accepted {
            upgraded_credential: None,
        }),
{
    lemma_registered_matches(attempt, current, salt);
}

/// A matching attempt on a credential under the current parameters is
/// accepted, and nothing is to be stored.
pub proof fn lemma_current_is_kept(
    attempt: LoginAttemptView,
    stored: CredentialView,
    current: CostParameters,
    salt: Seq<u8>,
)
    requires
        match_spec(attempt, stored),
        stored.parameters == current,
    ensures
        outcome_spec(attempt, stored, current, salt) == (OutcomeView::Accepted {
            upgraded_credential: None,
        }),
{
}

/// A stored hash that cannot be read is a rejection, whatever the attempt.
pub proof fn lemma_unreadable_is_rejected(
    attempt: LoginAttemptView,
    stored: CredentialView,
    current: CostParameters,
    salt: Seq<u8>,
)
    requires
        verify_spec(attempt.secret, stored.hash) is None,
    ensures
        !match_spec(attempt, stored),
        outcome_spec(attempt, stored, current, salt) == OutcomeView::Rejected,
{
}

/// Decides what follows from the check of an attempt.
pub fn decide(matched: bool, stored: &CostParameters, current: &CostParameters) -> (decision:
    Decision)
    ensures
        decision == decide_spec(matched, *stored, *current),
{
    if !matched {
        Decision::Reject
    } else if *stored == *current {
        Decision::Accept
    } else {
        Decision::Upgrade
    }
}

/// Makes the credential of `attempt` under `params`, with the salt given.
///
/// A salt must never serve twice: outside tests, call `register`.
pub fn register_with_salt(attempt: &LoginAttempt, params: &CostParameters, salt: &[u8]) -> (made:
    Credential)
    ensures
        made@ == credential_spec(attempt@, *params, salt@),
        match_spec(attempt@, made@),
{
    proof {
        use_type_invariant(params);
        lemma_registered_matches(attempt@, *params, salt@);
    }
    let hash = hash_with_salt(attempt.secret.as_str(), params, salt);
    Credential { identity: attempt.identity.clone(), parameters: *params, hash }
}

/// Makes the credential of `attempt` under `params`, with a fresh random salt.
///
/// Fails with `ResourceExhausted`, and only with it, where no salt could be
/// drawn. Whatever salt was drawn, `attempt` matches the credential.
pub fn register(attempt: &LoginAttempt, params: &CostParameters) -> (made: Result<
    Credential,
    AuthError,
>)
    ensures
        match made {
            Ok(credential) => {
                &&& exists|salt: Seq<u8>|
                    salt.len() == SALT_LEN && credential@ == #[trigger] credential_spec(
                        attempt@,
                        *params,
                        salt,
                    )
                &&& match_spec(attempt@, credential@)
            },
            Err(e) => e == AuthError::ResourceExhausted,
        },
{
    match fresh_salt() {
        Some(salt) => Ok(register_with_salt(attempt, params, salt.as_slice())),
        None => Err(AuthError::ResourceExhausted),
    }
}

/// Checks `attempt` against `stored` and, where it matches under stale
/// parameters, makes the credential to store instead, with the salt given.
///
/// A salt must never serve twice: outside tests, call `verify_and_upgrade`.
pub fn verify_and_upgrade_with_salt(
    attempt: &LoginAttempt,
    stored: &Credential,
    current: &CostParameters,
    salt: &[u8],
) -> (outcome: VerificationOutcome)
    ensures
        outcome@ == outcome_spec(attempt@, stored@, *current, salt@),
{
    let matched = identities_and_secret_match(attempt, stored);
    match decide(matched, &stored.parameters, current) {
        Decision::Reject => VerificationOutcome::Rejected,
        Decision::Accept => VerificationOutcome::Accepted { upgraded_credential: None },
        Decision::Upgrade => VerificationOutcome::Accepted {
            upgraded_credential: Some(register_with_salt(attempt, current, salt)),
        },
    }
}

/// Checks `attempt` against `stored` and, where it matches under stale
/// parameters, makes the credential to store instead, with a fresh random salt.
///
/// An attempt that does not match is rejected and nothing else is done. One
/// that matches under the current parameters is accepted with nothing to
/// store. One that matches under other parameters is accepted with a new
/// credential under the current ones, which the same attempt matches; only
/// where no salt could be drawn for it the attempt is rejected instead.
pub fn verify_and_upgrade(
    attempt: &LoginAttempt,
    stored: &Credential,
    current: &CostParameters,
) -> (outcome: VerificationOutcome)
    ensures
        match decide_spec(match_spec(attempt@, stored@), stored@.parameters, *current) {
            Decision::Reject => outcome@ == OutcomeView::Rejected,
            Decision::Accept => outcome@ == (OutcomeView::Accepted { upgraded_credential: None }),
            Decision::Upgrade => outcome@ == OutcomeView::Rejected || exists|salt: Seq<u8>|
                salt.len() == SALT_LEN && outcome@ == #[trigger] outcome_spec(
                    attempt@,
                    stored@,
                    *current,
                    salt,
                ),
        },
        outcome@ matches OutcomeView::Accepted { upgraded_credential: Some(upgraded) }
            ==> upgraded.parameters == *current && match_spec(attempt@, upgraded),
{
    let matched = identities_and_secret_match(attempt, stored);
    match decide(matched, &stored.parameters, current) {
        Decision::Reject => VerificationOutcome::Rejected,
        Decision::Accept => VerificationOutcome::Accepted { upgraded_credential: None },
        Decision::Upgrade => match fresh_salt() {
            Some(salt) => {
                let upgraded = register_with_salt(attempt, current, salt.as_slice());
                proof {
                    assert(upgraded@ == credential_spec(attempt@, *current, salt@));
                }
                let outcome = VerificationOutcome::Accepted { upgraded_credential: Some(upgraded) };
                proof {
                    assert(outcome@ == outcome_spec(attempt@, stored@, *current, salt@));
                }
                outcome
            },
            None => VerificationOutcome::Rejected,
        },
    }
}

} // verus!

//! What a user presents at login, and what is stored for a user.

use crate::params::CostParameters;
use vstd::prelude::*;

verus! {

/// One login attempt. It lives for the length of a request.
#[derive(Clone, PartialEq, Eq)]
pub struct LoginAttempt {
    pub identity: String,
    pub secret: String,
}

/// A login attempt as the contracts see it.
pub struct LoginAttemptView {
    pub identity: Seq<char>,
    pub secret: Seq<char>,
}

impl View for LoginAttempt {
    type V = LoginAttemptView;

    open spec fn view(&self) -> LoginAttemptView {
        LoginAttemptView { identity: self.identity@, secret: self.secret@ }
    }
}

/// The authentication material stored for one user: who it is, under which
/// parameters the secret was hashed, and the encoded hash.
#[derive(Clone, Debug, PartialEq, Eq)]
pub struct Credential {
    pub identity: String,
    pub parameters: CostParameters,
    pub hash: String,
}

/// A credential as the contracts see it.
pub struct CredentialView {
    pub identity: Seq<char>,
    pub parameters: CostParameters,
    pub hash: Seq<char>,
}

impl View for Credential {
    type V = CredentialView;

    open spec fn view(&self) -> CredentialView {
        CredentialView {
            identity: self.identity@,
            parameters: self.parameters,
            hash: self.hash@,
        }
    }
}

} // verus!

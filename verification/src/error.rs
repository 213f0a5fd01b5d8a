use vstd::prelude::*;

verus! {

/// Why an operation of this library could not be carried out.
#[derive(Clone, Copy, Debug, PartialEq, Eq, Structural)]
pub enum AuthError {
    /// The cost parameters are outside what the hashing primitive can run.
    InvalidParameters,
    /// A stored hash string does not have the layout of an encoded hash.
    MalformedEncoding,
    /// The operating system's random source could not be opened.
    ResourceExhausted,
}

impl AuthError {
    /// A short description, fit for an internal log line.
    pub fn message(&self) -> (text: &'static str)
        ensures
            text@ == match *self {
                AuthError::InvalidParameters => "invalid cost parameters"@,
                AuthError::MalformedEncoding => "malformed hash encoding"@,
                AuthError::ResourceExhausted => "random source unavailable"@,
            },
    {
        match self {
            AuthError::InvalidParameters => "invalid cost parameters",
            AuthError::MalformedEncoding => "malformed hash encoding",
            AuthError::ResourceExhausted => "random source unavailable",
        }
    }
}

} // verus!

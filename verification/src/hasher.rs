//! Hashing a secret under cost parameters, and checking a secret against a
//! stored hash.

use crate::codec::{
    decode, decode_spec, encode, encoded_text, lemma_decode_encoded,
    lemma_encoded_is_text, parts_spec, KEY_LEN,
};
use crate::error::AuthError;
use crate::params::CostParameters;
use crate::primitive::{derive_key, draw_bytes, fixed_time_eq, open_random_source, scrypt_output};
use vstd::prelude::*;
use vstd::utf8::encode_utf8;

verus! {

/// The number of bytes of a salt drawn by this library.
pub const SALT_LEN: usize = 16;

/// The digest of `secret` under `params` and `salt`.
pub open spec fn digest_spec(secret: Seq<char>, params: CostParameters, salt: Seq<u8>) -> Seq<u8> {
    scrypt_output(
        encode_utf8(secret),
        salt,
        params.spec_log_cost(),
        params.spec_block_size(),
        params.spec_parallelism(),
    )@
}

/// The encoded hash of `secret` under `params` and `salt`.
pub open spec fn hash_spec(secret: Seq<char>, params: CostParameters, salt: Seq<u8>) -> Seq<char> {
    encoded_text(params, salt, digest_spec(secret, params, salt))
}

/// Whether `secret` matches `encoded`: `None` where `encoded` is no encoded
/// hash, else whether the digest it holds is the digest of `secret` under the
/// salt and the parameters it holds.
pub open spec fn verify_spec(secret: Seq<char>, encoded: Seq<char>) -> Option<bool> {
    match decode_spec(encode_utf8(encoded)) {
        Some(parts) => Some(
            parts.digest == scrypt_output(
                encode_utf8(secret),
                parts.salt,
                parts.log_cost,
                parts.block_size,
                parts.parallelism,
            )@,
        ),
        None => None,
    }
}

/// What `decode_spec` finds in a hash made by this library.
pub proof fn lemma_hash_decodes(secret: Seq<char>, params: CostParameters, salt: Seq<u8>)
    requires
        params.is_valid(),
    ensures
        decode_spec(encode_utf8(hash_spec(secret, params, salt))) == Some(
            parts_spec(params, salt, digest_spec(secret, params, salt)),
        ),
{
    let digest = digest_spec(secret, params, salt);
    assert(digest.len() == KEY_LEN);
    lemma_encoded_is_text(params, salt, digest);
    lemma_decode_encoded(params, salt, digest);
}

/// Checking a secret against a hash made by this library compares the two
/// digests under the salt and the parameters of the hash.
pub proof fn lemma_verify_hashed(
    attempt: Seq<char>,
    secret: Seq<char>,
    params: CostParameters,
    salt: Seq<u8>,
)
    requires
        params.is_valid(),
    ensures
        verify_spec(attempt, hash_spec(secret, params, salt)) == Some(
            digest_spec(attempt, params, salt) == digest_spec(secret, params, salt),
        ),
{
    lemma_hash_decodes(secret, params, salt);
}

/// A secret matches every hash made of it, whatever the parameters and the salt.
pub proof fn lemma_round_trip(secret: Seq<char>, params: CostParameters, salt: Seq<u8>)
    requires
        params.is_valid(),
    ensures
        verify_spec(secret, hash_spec(secret, params, salt)) == Some(true),
{
    lemma_verify_hashed(secret, secret, params, salt);
}

/// Another secret does not match the hash of a secret, unless the primitive
/// gives both the same digest under the salt and the parameters of the hash.
pub proof fn lemma_other_secret_rejected(
    secret: Seq<char>,
    other: Seq<char>,
    params: CostParameters,
    salt: Seq<u8>,
)
    requires
        params.is_valid(),
        secret != other,
        digest_spec(secret, params, salt) != digest_spec(other, params, salt),
    ensures
        verify_spec(other, hash_spec(secret, params, salt)) == Some(false),
{
    lemma_verify_hashed(other, secret, params, salt);
}

/// Hashes made under different salts differ, even for one secret and one
/// parameter set.
pub proof fn lemma_salt_shows(
    secret: Seq<char>,
    params: CostParameters,
    salt: Seq<u8>,
    other_salt: Seq<u8>,
)
    requires
        params.is_valid(),
        salt != other_salt,
    ensures
        hash_spec(secret, params, salt) != hash_spec(secret, params, other_salt),
{
    lemma_hash_decodes(secret, params, salt);
    lemma_hash_decodes(secret, params, other_salt);
}

/// Hashes `secret` under `params` with the salt given.
///
/// A salt must never serve twice: outside tests, call `hash`.
pub fn hash_with_salt(secret: &str, params: &CostParameters, salt: &[u8]) -> (encoded: String)
    ensures
        encoded@ == hash_spec(secret@, *params, salt@),
        verify_spec(secret@, encoded@) == Some(true),
{
    proof {
        use_type_invariant(params);
        lemma_round_trip(secret@, *params, salt@);
    }
    let key = derive_key(secret.as_bytes(), salt, params);
    encode(params, salt, key.as_slice())
}

/// Draws a salt from the operating system's random source; `None` where the
/// source cannot be opened.
pub fn fresh_salt() -> (salt: Option<Vec<u8>>)
    ensures
        salt matches Some(bytes) ==> bytes@.len() == SALT_LEN,
{
    salt_from(open_random_source())
}

/// Draws a salt from a random source that may have failed to open: a salt of
/// `SALT_LEN` bytes where there is a source, `None` where there is none.
pub fn salt_from(source: Option<rand::OsRng>) -> (salt: Option<Vec<u8>>)
    ensures
        salt is Some <==> source is Some,
        salt matches Some(bytes) ==> bytes@.len() == SALT_LEN,
{
    match source {
        Some(mut opened) => Some(draw_bytes(&mut opened, SALT_LEN)),
        None => None,
    }
}

/// Hashes `secret` under `params` with a fresh random salt.
///
/// Fails with `ResourceExhausted`, and only with it, where no salt could be
/// drawn. Whatever salt was drawn, `secret` matches the result.
pub fn hash(secret: &str, params: &CostParameters) -> (made: Result<String, AuthError>)
    ensures
        match made {
            Ok(encoded) => {
                &&& exists|salt: Seq<u8>|
                    salt.len() == SALT_LEN && encoded@ == #[trigger] hash_spec(
                        secret@,
                        *params,
                        salt,
                    )
                &&& verify_spec(secret@, encoded@) == Some(true)
            },
            Err(e) => e == AuthError::ResourceExhausted,
        },
{
    match fresh_salt() {
        Some(salt) => Ok(hash_with_salt(secret, params, salt.as_slice())),
        None => Err(AuthError::ResourceExhausted),
    }
}

/// Checks `secret` against the stored hash `encoded`, in time that does not
/// depend on where the digests differ.
///
/// Fails with `MalformedEncoding` exactly where `encoded` is no encoded hash.
pub fn verify(secret: &str, encoded: &str) -> (matched: Result<bool, AuthError>)
    ensures
        matched == match verify_spec(secret@, encoded@) {
            Some(same) => Ok::<bool, AuthError>(same),
            None => Err(AuthError::MalformedEncoding),
        },
{
    let parts = match decode(encoded) {
        Ok(parts) => parts,
        Err(_) => {
            return Err(AuthError::MalformedEncoding);
        },
    };
    proof {
        parts.params.lemma_valid_by_fields();
    }
    let key = derive_key(secret.as_bytes(), parts.salt.as_slice(), &parts.params);
    Ok(fixed_time_eq(key.as_slice(), parts.digest.as_slice()))
}

} // verus!

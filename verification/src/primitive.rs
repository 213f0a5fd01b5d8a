//! The calls that leave this library: the scrypt key derivation and the
//! constant-time comparison of the `crypto` crate, the operating system's
//! random source of the `rand` crate, and one conversion of the standard
//! library. Their contracts are taken on trust.

use crate::params::CostParameters;
use crypto::scrypt::{scrypt, ScryptParams};
use rand::{OsRng, Rng};
use vstd::prelude::*;
use vstd::utf8::{decode_utf8, valid_utf8};

verus! {

/// The 32 bytes that `crypto::scrypt::scrypt` derives from a password and a
/// salt under `N = 2^log_n`, `r` and `p`.
pub uninterp spec fn scrypt_output(
    password: Seq<u8>,
    salt: Seq<u8>,
    log_n: u8,
    r: u32,
    p: u32,
) -> [u8; 32];

/// Runs `crypto::scrypt::scrypt` into a buffer of 32 bytes, under the
/// `ScryptParams` made by `ScryptParams::new` from the three cost values.
///
/// The contract claims that the key is a function of the password, the salt
/// and the three values, and nothing more about it. Validity of the
/// parameters is what keeps `ScryptParams::new` and `scrypt` from panicking.
/// The primitive allocates `128 * r * (2^log_n + p + 1)` bytes; the process
/// aborts if the allocator cannot provide them.
#[verifier::external_body]
pub(crate) fn derive_key(password: &[u8], salt: &[u8], params: &CostParameters) -> (key: [u8; 32])
    requires
        params.is_valid(),
    ensures
        key == scrypt_output(
            password@,
            salt@,
            params.spec_log_cost(),
            params.spec_block_size(),
            params.spec_parallelism(),
        ),
{
    let work = ScryptParams::new(params.log_cost(), params.block_size(), params.parallelism());
    let mut key = [0u8; 32];
    scrypt(password, salt, &work, &mut key);
    key
}

/// Calls `crypto::util::fixed_time_eq`, which returns `false` at once for
/// slices of different lengths and otherwise folds the differences of all
/// byte pairs before it looks at the outcome.
///
/// The contract claims that the answer is equality of the two byte strings.
/// Two empty slices are left out: the outside function reads the first byte
/// of each before it looks at the length.
#[verifier::external_body]
pub(crate) fn fixed_time_eq(lhs: &[u8], rhs: &[u8]) -> (same: bool)
    requires
        lhs@.len() > 0 || rhs@.len() > 0,
    ensures
        same == (lhs@ == rhs@),
{
    crypto::util::fixed_time_eq(lhs, rhs)
}

#[verifier::external_type_specification]
#[verifier::external_body]
pub struct ExOsRng(OsRng);

/// Calls `rand::OsRng::new`, which opens the operating system's random
/// source. Nothing is claimed of the outcome: `None` stands for its error.
#[verifier::external_body]
pub(crate) fn open_random_source() -> (source: Option<OsRng>) {
    OsRng::new().ok()
}

/// Calls `rand::Rng::fill_bytes` on a fresh buffer of `len` bytes.
///
/// The contract claims the length of what comes back and nothing of its
/// content. The outside function panics if the operating system refuses the
/// read after the source was opened.
#[verifier::external_body]
pub(crate) fn draw_bytes(source: &mut OsRng, len: usize) -> (bytes: Vec<u8>)
    requires
        len <= isize::MAX,
    ensures
        bytes@.len() == len,
{
    let mut bytes = vec![0u8; len];
    source.fill_bytes(&mut bytes);
    bytes
}

/// Calls `String::from_utf8`, which accepts exactly the byte strings that are
/// UTF-8 and then holds the characters that they encode.
#[verifier::external_body]
pub(crate) fn string_from_utf8(bytes: Vec<u8>) -> (text: Option<String>)
    ensures
        text is Some <==> valid_utf8(bytes@),
        text matches Some(s) ==> s@ == decode_utf8(bytes@),
{
    String::from_utf8(bytes).ok()
}

} // verus!

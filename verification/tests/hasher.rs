use credhash::codec::decode;
use credhash::error::AuthError;
use credhash::hasher::{fresh_salt, hash, hash_with_salt, salt_from, verify, SALT_LEN};
use credhash::params::CostParameters;
use crypto::scrypt::{scrypt_check, scrypt_simple, ScryptParams};

fn light() -> CostParameters {
    CostParameters::new(4, 2, 1).unwrap()
}

#[test]
fn hash_with_salt_holds_the_key_that_scrypt_derives() {
    // "password" under the salt "NaCl" with N = 1024, r = 8, p = 16
    let params = CostParameters::new(10, 8, 16).unwrap();
    let encoded = hash_with_salt("password", &params, b"NaCl");
    let parts = decode(&encoded).unwrap();
    assert_eq!(parts.params, params);
    assert_eq!(parts.salt, b"NaCl".to_vec());
    assert_eq!(
        parts.digest,
        vec![
            0xfd, 0xba, 0xbe, 0x1c, 0x9d, 0x34, 0x72, 0x00, 0x78, 0x56, 0xe7, 0x19, 0x0d, 0x01,
            0xe9, 0xfe, 0x7c, 0x6a, 0xd7, 0xcb, 0xc8, 0x23, 0x78, 0x30, 0xe7, 0x73, 0x76, 0x63,
            0x4b, 0x37, 0x31, 0x62
        ]
    );
    assert_eq!(
        encoded,
        "$rscrypt$0$CggQ$TmFDbA==$/bq+HJ00cgB4VucZDQHp/nxq18vII3gw53N2Y0s3MWI=$"
    );
}

#[test]
fn hash_with_salt_takes_an_empty_secret_and_an_empty_salt() {
    // "" under the salt "" with N = 16, r = 1, p = 1
    let params = CostParameters::new(4, 1, 1).unwrap();
    let encoded = hash_with_salt("", &params, b"");
    assert_eq!(
        decode(&encoded).unwrap().digest,
        vec![
            0x77, 0xd6, 0x57, 0x62, 0x38, 0x65, 0x7b, 0x20, 0x3b, 0x19, 0xca, 0x42, 0xc1, 0x8a,
            0x04, 0x97, 0xf1, 0x6b, 0x48, 0x44, 0xe3, 0x07, 0x4a, 0xe8, 0xdf, 0xdf, 0xfa, 0x3f,
            0xed, 0xe2, 0x14, 0x42
        ]
    );
    assert_eq!(verify("", &encoded), Ok(true));
    assert_eq!(verify(" ", &encoded), Ok(false));
}

#[test]
fn hash_with_salt_is_a_function_of_its_arguments() {
    let a = hash_with_salt("test1234", &light(), &[7u8; 16]);
    assert_eq!(a, hash_with_salt("test1234", &light(), &[7u8; 16]));
    assert_ne!(a, hash_with_salt("test1235", &light(), &[7u8; 16]));
    assert_ne!(a, hash_with_salt("test1234", &light(), &[8u8; 16]));
    assert_ne!(a, hash_with_salt("test1234", &CostParameters::new(5, 2, 1).unwrap(), &[7u8; 16]));
    assert_ne!(a, hash_with_salt("test1234", &CostParameters::new(4, 3, 1).unwrap(), &[7u8; 16]));
    assert_ne!(a, hash_with_salt("test1234", &CostParameters::new(4, 2, 2).unwrap(), &[7u8; 16]));
}

#[test]
fn a_secret_matches_its_own_hash() {
    for secret in ["", "test1234", "correct horse battery staple", "p\u{e4}ssw\u{f6}rd \u{1f511}"] {
        for params in [light(), CostParameters::new(3, 1, 256).unwrap()] {
            let encoded = hash(secret, &params).unwrap();
            assert_eq!(verify(secret, &encoded), Ok(true));
        }
    }
}

#[test]
fn another_secret_does_not_match() {
    let encoded = hash("test1234", &light()).unwrap();
    for other in ["", "test123", "test12345", "Test1234", "test1234 ", "\u{0}test1234"] {
        assert_eq!(verify(other, &encoded), Ok(false));
    }
}

#[test]
fn secrets_that_the_primitive_keys_alike_match_alike() {
    // The primitive keys its MAC with the secret, padded with zero bytes to
    // 64 bytes: zero bytes at the end of a shorter secret leave no trace.
    let encoded = hash_with_salt("test1234", &light(), &[5u8; 16]);
    assert_eq!(encoded, hash_with_salt("test1234\u{0}", &light(), &[5u8; 16]));
    assert_eq!(verify("test1234\u{0}", &encoded), Ok(true));
    assert_eq!(verify("test1234\u{0}\u{0}", &encoded), Ok(true));
}

#[test]
fn two_hashes_of_one_secret_differ() {
    let first = hash("test1234", &light()).unwrap();
    let second = hash("test1234", &light()).unwrap();
    assert_ne!(first, second);
    assert_ne!(decode(&first).unwrap().salt, decode(&second).unwrap().salt);
    assert_eq!(verify("test1234", &first), Ok(true));
    assert_eq!(verify("test1234", &second), Ok(true));
}

#[test]
fn hash_draws_a_salt_of_sixteen_bytes() {
    let encoded = hash("test1234", &light()).unwrap();
    let parts = decode(&encoded).unwrap();
    assert_eq!(parts.salt.len(), SALT_LEN);
    assert_eq!(parts.digest.len(), 32);
    assert_eq!(parts.params, light());
    assert_eq!(encoded.len(), 9 + 2 + 5 + 25 + 45);
}

#[test]
fn fresh_salts_differ() {
    let a = fresh_salt().unwrap();
    let b = fresh_salt().unwrap();
    assert_eq!(a.len(), SALT_LEN);
    assert_eq!(b.len(), SALT_LEN);
    assert_ne!(a, b);
}

#[test]
fn a_salt_is_drawn_exactly_where_there_is_a_source() {
    assert_eq!(salt_from(None), None);
    let salt = salt_from(rand::OsRng::new().ok()).unwrap();
    assert_eq!(salt.len(), SALT_LEN);
    assert_ne!(salt, salt_from(rand::OsRng::new().ok()).unwrap());
}

#[test]
fn verify_tells_a_malformed_hash_from_a_wrong_secret() {
    let encoded = hash("test1234", &light()).unwrap();
    assert_eq!(verify("wrong", &encoded), Ok(false));
    assert_eq!(verify("test1234", &encoded[1..]), Err(AuthError::MalformedEncoding));
    assert_eq!(verify("test1234", ""), Err(AuthError::MalformedEncoding));
    assert_eq!(
        verify("test1234", &encoded.replace("rscrypt", "xscrypt")),
        Err(AuthError::MalformedEncoding)
    );
}

#[test]
fn verify_does_not_fail_on_parameters_that_the_primitive_would_refuse() {
    let salt = "AAAAAAAAAAAAAAAAAAAAAA==";
    let digest = "AAAAAAAAAAAAAAAAAAAAAAAAAAAAAAAAAAAAAAAAAAA=";
    for params in ["AAgB", "DwAB", "DwgA", "/wgB", "EAEB"] {
        let text = format!("$rscrypt$0${}${}${}$", params, salt, digest);
        assert_eq!(verify("test1234", &text), Err(AuthError::MalformedEncoding));
    }
    let text = format!("$rscrypt$0$BAIB${}$$", salt);
    assert_eq!(verify("test1234", &text), Err(AuthError::MalformedEncoding));
}

#[test]
fn a_changed_digest_or_salt_no_longer_matches() {
    let encoded = hash_with_salt("test1234", &light(), &[1u8; 16]);
    let parts = decode(&encoded).unwrap();
    let mut digest = parts.digest.clone();
    digest[31] ^= 1;
    let changed = credhash::codec::encode(&parts.params, &parts.salt, &digest);
    assert_eq!(verify("test1234", &changed), Ok(false));
    let mut salt = parts.salt.clone();
    salt[0] ^= 1;
    let changed = credhash::codec::encode(&parts.params, &salt, &parts.digest);
    assert_eq!(verify("test1234", &changed), Ok(false));
    let changed = credhash::codec::encode(&parts.params, &parts.salt, &parts.digest);
    assert_eq!(verify("test1234", &changed), Ok(true));
}

#[test]
fn hashes_are_read_by_the_scrypt_crate_and_the_other_way_round() {
    for (log_n, r, p) in [(4u8, 2u32, 1u32), (3, 1, 256)] {
        let ours = hash("test1234", &CostParameters::new(log_n, r, p).unwrap()).unwrap();
        assert_eq!(scrypt_check("test1234", &ours), Ok(true));
        assert_eq!(scrypt_check("test12345", &ours), Ok(false));
        let theirs = scrypt_simple("test1234", &ScryptParams::new(log_n, r, p)).unwrap();
        assert_eq!(verify("test1234", &theirs), Ok(true));
        assert_eq!(verify("test12345", &theirs), Ok(false));
        let parts = decode(&theirs).unwrap();
        assert_eq!(parts.params, CostParameters::new(log_n, r, p).unwrap());
        assert_eq!(hash_with_salt("test1234", &parts.params, &parts.salt), theirs);
    }
}

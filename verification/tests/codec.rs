use credhash::codec::{decode, encode, split, DecodedHash};
use credhash::error::AuthError;
use credhash::params::CostParameters;

fn usual() -> CostParameters {
    CostParameters::new(15, 8, 1).unwrap()
}

const ZERO_SALT: &str = "AAAAAAAAAAAAAAAAAAAAAA==";
const ZERO_DIGEST: &str = "AAAAAAAAAAAAAAAAAAAAAAAAAAAAAAAAAAAAAAAAAAA=";

fn line(format: &str, params: &str, salt: &str, digest: &str) -> String {
    format!("$rscrypt${}${}${}${}$", format, params, salt, digest)
}

#[test]
fn split_cuts_at_every_separator() {
    assert_eq!(split(b""), vec![Vec::<u8>::new()]);
    assert_eq!(split(b"abc"), vec![b"abc".to_vec()]);
    assert_eq!(split(b"$"), vec![Vec::<u8>::new(), Vec::new()]);
    assert_eq!(split(b"a$b"), vec![b"a".to_vec(), b"b".to_vec()]);
    assert_eq!(
        split(b"$a$$bc$"),
        vec![Vec::new(), b"a".to_vec(), Vec::new(), b"bc".to_vec(), Vec::new()]
    );
}

#[test]
fn encode_writes_the_compact_layout() {
    let written = encode(&usual(), &[0u8; 16], &[0u8; 32]);
    assert_eq!(written, line("0", "DwgB", ZERO_SALT, ZERO_DIGEST));
    assert_eq!(
        written,
        "$rscrypt$0$DwgB$AAAAAAAAAAAAAAAAAAAAAA==$AAAAAAAAAAAAAAAAAAAAAAAAAAAAAAAAAAAAAAAAAAA=$"
    );
}

#[test]
fn encode_writes_the_wide_layout_when_a_value_needs_more_than_a_byte() {
    let wide = CostParameters::new(3, 1, 256).unwrap();
    assert_eq!(
        encode(&wide, &[0u8; 16], &[0u8; 32]),
        line("1", "AwEAAAAAAQAA", ZERO_SALT, ZERO_DIGEST)
    );
    let wide = CostParameters::new(10, 0x0102_0304, 1).unwrap();
    assert_eq!(
        encode(&wide, b"foobar", &[0u8; 32]),
        line("1", "CgQDAgEBAAAA", "Zm9vYmFy", ZERO_DIGEST)
    );
    let edge = CostParameters::new(10, 255, 255).unwrap();
    assert_eq!(encode(&edge, b"", &[0u8; 32]), line("0", "Cv//", "", ZERO_DIGEST));
}

#[test]
fn decode_reads_both_layouts() {
    let found = decode(&line("0", "DwgB", ZERO_SALT, ZERO_DIGEST)).unwrap();
    assert_eq!(
        found,
        DecodedHash { params: usual(), salt: vec![0u8; 16], digest: vec![0u8; 32] }
    );
    let found = decode(&line("1", "CgQDAgEBAAAA", "Zm9vYmFy", ZERO_DIGEST)).unwrap();
    assert_eq!(found.params, CostParameters::new(10, 0x0102_0304, 1).unwrap());
    assert_eq!(found.salt, b"foobar".to_vec());
    let found = decode(&line("1", "DwgAAAABAAAA", "", ZERO_DIGEST)).unwrap();
    assert_eq!(found.params, usual());
    assert_eq!(found.salt, Vec::<u8>::new());
}

#[test]
fn decode_undoes_encode() {
    let digest: Vec<u8> = (0..32u8).map(|i| i.wrapping_mul(29).wrapping_add(7)).collect();
    for (log_cost, block_size, parallelism) in
        [(1u8, 1u32, 1u32), (15, 8, 1), (10, 255, 255), (10, 256, 1), (10, 1, 256), (20, 70000, 3)]
    {
        let params = CostParameters::new(log_cost, block_size, parallelism).unwrap();
        for salt_len in 0usize..=20 {
            let salt: Vec<u8> = (0..salt_len).map(|i| (250 + i) as u8).collect();
            let written = encode(&params, &salt, &digest);
            assert!(written.is_ascii());
            let found = decode(&written).unwrap();
            assert_eq!(found, DecodedHash { params, salt, digest: digest.clone() });
        }
    }
}

fn malformed(text: &str) {
    assert_eq!(decode(text), Err(AuthError::MalformedEncoding), "{}", text);
}

#[test]
fn decode_refuses_a_wrong_frame() {
    malformed("");
    malformed("$");
    malformed("$$$$$$");
    malformed("rscrypt$0$DwgB$AAAAAAAAAAAAAAAAAAAAAA==$AAAAAAAAAAAAAAAAAAAAAAAAAAAAAAAAAAAAAAAAAAA=$");
    malformed("x$rscrypt$0$DwgB$AAAAAAAAAAAAAAAAAAAAAA==$AAAAAAAAAAAAAAAAAAAAAAAAAAAAAAAAAAAAAAAAAAA=$");
    malformed("$rscrypt$0$DwgB$AAAAAAAAAAAAAAAAAAAAAA==$AAAAAAAAAAAAAAAAAAAAAAAAAAAAAAAAAAAAAAAAAAA=");
    malformed("$rscrypt$0$DwgB$AAAAAAAAAAAAAAAAAAAAAA==$AAAAAAAAAAAAAAAAAAAAAAAAAAAAAAAAAAAAAAAAAAA=$x");
    malformed("$rscrypt$0$DwgB$AAAAAAAAAAAAAAAAAAAAAA==$AAAAAAAAAAAAAAAAAAAAAAAAAAAAAAAAAAAAAAAAAAA=$$");
    malformed("$rscrypt$0$DwgB$AAAAAAAAAAAAAAAAAAAAAA==$");
    malformed("$rscrypt$0$DwgB$$AAAAAAAAAAAAAAAAAAAAAA==$AAAAAAAAAAAAAAAAAAAAAAAAAAAAAAAAAAAAAAAAAAA=$");
}

#[test]
fn decode_refuses_a_wrong_tag_or_format() {
    malformed(&line("0", "DwgB", ZERO_SALT, ZERO_DIGEST).replace("rscrypt", "scrypt"));
    malformed(&line("0", "DwgB", ZERO_SALT, ZERO_DIGEST).replace("rscrypt", "RSCRYPT"));
    malformed(&line("0", "DwgB", ZERO_SALT, ZERO_DIGEST).replace("rscrypt", "rscrypt "));
    malformed(&line("2", "DwgB", ZERO_SALT, ZERO_DIGEST));
    malformed(&line("", "DwgB", ZERO_SALT, ZERO_DIGEST));
    malformed(&line("00", "DwgB", ZERO_SALT, ZERO_DIGEST));
    malformed(&line("1", "DwgB", ZERO_SALT, ZERO_DIGEST));
    malformed(&line("0", "DwgAAAABAAAA", ZERO_SALT, ZERO_DIGEST));
    malformed(&line("0", "Dwg=", ZERO_SALT, ZERO_DIGEST));
    malformed(&line("0", "", ZERO_SALT, ZERO_DIGEST));
}

#[test]
fn decode_refuses_parameters_that_the_primitive_cannot_run() {
    // log_cost 0, block size 0, parallelism 0, in turn
    malformed(&line("0", "AAgB", ZERO_SALT, ZERO_DIGEST));
    malformed(&line("0", "DwAB", ZERO_SALT, ZERO_DIGEST));
    malformed(&line("0", "DwgA", ZERO_SALT, ZERO_DIGEST));
    // log_cost 255; log_cost 16 with block size 1
    malformed(&line("0", "/wgB", ZERO_SALT, ZERO_DIGEST));
    malformed(&line("0", "EAEB", ZERO_SALT, ZERO_DIGEST));
    // block size and parallelism both 0xffffffff
    malformed(&line("1", "D/////////8=", ZERO_SALT, ZERO_DIGEST));
}

#[test]
fn decode_refuses_fields_that_are_no_base64_or_of_the_wrong_size() {
    malformed(&line("0", "Dwg*", ZERO_SALT, ZERO_DIGEST));
    malformed(&line("0", "DwgB", "AAAAAAAAAAAAAAAAAAAAAA=", ZERO_DIGEST));
    malformed(&line("0", "DwgB", "AAAAAAAAAAAAAAAAAAAAAB==", ZERO_DIGEST));
    malformed(&line("0", "DwgB", ZERO_SALT, "AAAAAAAAAAAAAAAAAAAAAAAAAAAAAAAAAAAAAAAAAAA"));
    malformed(&line("0", "DwgB", ZERO_SALT, "AAAAAAAAAAAAAAAAAAAAAAAAAAAAAAAAAAAAAAAAAAAA"));
    malformed(&line("0", "DwgB", ZERO_SALT, "AAAAAAAAAAAAAAAAAAAAAAAAAAAAAAAAAAAAAAAAAA=="));
    malformed(&line("0", "DwgB", ZERO_SALT, ""));
    malformed(&line("0", "DwgB", ZERO_SALT, "\u{e9}AAAAAAAAAAAAAAAAAAAAAAAAAAAAAAAAAAAAAAAAA="));
}

#[test]
fn decode_refuses_text_in_another_format() {
    malformed("not a hash");
    malformed("$2b$12$R9h/cIPz0gi.URNNX3kh2OPST9/PgBkqquzi.Ss7KIUgO2t0jWMUW");
    malformed("$argon2id$v=19$m=65536,t=2,p=1$c29tZXNhbHQ$RdescudvJCsgt3ub+b+dWRWJTmaaJObG");
    malformed("\u{0}");
    malformed(&"$".repeat(5000));
}

//! The stored form of a hash: one line of text that carries, besides the
//! digest, the salt and the cost parameters that produced it.
//!
//! The text is seven fields joined by `$`: an empty field, the tag `rscrypt`,
//! a format digit, and the parameters, the salt and the digest, each in
//! base64, then an empty field again. Format `0` writes each parameter in one
//! byte; format `1` writes the block size and the parallelism in four bytes
//! each, least significant byte first.

use crate::base64;
use crate::error::AuthError;
use crate::params::{acceptable, CostParameters};
use crate::primitive::string_from_utf8;
use vstd::prelude::*;
use vstd::slice::{slice_subrange, slice_to_vec};
use vstd::utf8::{
    decode_utf8, decode_utf8_encode_utf8, encode_utf8, is_leading_byte_width_1,
    partial_valid_utf8, partial_valid_utf8_extend_ascii_block, valid_utf8,
};

verus! {

/// The byte that separates the fields, `$`.
pub const SEPARATOR: u8 = 36;

/// The number of bytes of a digest.
pub const KEY_LEN: usize = 32;

/// The bytes of the tag, `rscrypt`.
pub open spec fn tag() -> Seq<u8> {
    seq![114u8, 115u8, 99u8, 114u8, 121u8, 112u8, 116u8]
}

/// What an encoded hash holds.
pub struct HashParts {
    pub log_cost: u8,
    pub block_size: u32,
    pub parallelism: u32,
    pub salt: Seq<u8>,
    pub digest: Seq<u8>,
}

/// The position of the first separator in `text`, or its length if it has none.
pub open spec fn first_separator(text: Seq<u8>) -> int
    decreases text.len(),
{
    if text.len() == 0 || text[0] == SEPARATOR {
        0
    } else {
        1 + first_separator(text.skip(1))
    }
}

/// The fields of `text`: what stands before, between and after its separators.
pub open spec fn split_spec(text: Seq<u8>) -> Seq<Seq<u8>>
    decreases text.len(),
{
    let k = first_separator(text);
    if 0 <= k < text.len() {
        seq![text.take(k)] + split_spec(text.skip(k + 1))
    } else {
        seq![text]
    }
}

/// The fields written one after the other with a separator between neighbours.
pub open spec fn join_spec(fields: Seq<Seq<u8>>) -> Seq<u8>
    decreases fields.len(),
{
    if fields.len() == 0 {
        Seq::empty()
    } else if fields.len() == 1 {
        fields[0]
    } else {
        fields[0] + seq![SEPARATOR] + join_spec(fields.skip(1))
    }
}

/// Whether `field` is free of separators.
pub open spec fn is_plain(field: Seq<u8>) -> bool {
    forall|i: int| 0 <= i < field.len() ==> #[trigger] field[i] != SEPARATOR
}

/// The four bytes of `x`, least significant first.
pub open spec fn le_bytes(x: u32) -> Seq<u8> {
    seq![
        (x % 256) as u8,
        (x / 256 % 256) as u8,
        (x / 65536 % 256) as u8,
        (x / 16777216) as u8,
    ]
}

/// The number whose four bytes, least significant first, are `b0` to `b3`.
pub open spec fn le_value(b0: u8, b1: u8, b2: u8, b3: u8) -> u32 {
    (b0 + 256 * b1 + 65536 * b2 + 16777216 * b3) as u32
}

/// Whether every parameter fits in one byte.
pub open spec fn is_compact(params: CostParameters) -> bool {
    params.spec_block_size() < 256 && params.spec_parallelism() < 256
}

/// The format field: `0` for the compact layout of the parameters, `1` for the wide one.
pub open spec fn format_field(params: CostParameters) -> Seq<u8> {
    if is_compact(params) {
        seq![48u8]
    } else {
        seq![49u8]
    }
}

/// The bytes that stand for the parameters, before base64.
pub open spec fn params_bytes(params: CostParameters) -> Seq<u8> {
    if is_compact(params) {
        seq![
            params.spec_log_cost(),
            params.spec_block_size() as u8,
            params.spec_parallelism() as u8,
        ]
    } else {
        seq![params.spec_log_cost()] + le_bytes(params.spec_block_size()) + le_bytes(
            params.spec_parallelism(),
        )
    }
}

/// The seven fields of an encoded hash.
pub open spec fn fields_spec(params: CostParameters, salt: Seq<u8>, digest: Seq<u8>) -> Seq<
    Seq<u8>,
> {
    seq![
        Seq::empty(),
        tag(),
        format_field(params),
        base64::encode_spec(params_bytes(params)),
        base64::encode_spec(salt),
        base64::encode_spec(digest),
        Seq::empty(),
    ]
}

/// The bytes of an encoded hash.
pub open spec fn encoded_bytes(params: CostParameters, salt: Seq<u8>, digest: Seq<u8>) -> Seq<u8> {
    join_spec(fields_spec(params, salt, digest))
}

/// An encoded hash as text.
pub open spec fn encoded_text(params: CostParameters, salt: Seq<u8>, digest: Seq<u8>) -> Seq<
    char,
> {
    decode_utf8(encoded_bytes(params, salt, digest))
}

/// The three values, if the primitive can run under them.
pub open spec fn checked(log_cost: u8, block_size: u32, parallelism: u32) -> Option<
    (u8, u32, u32),
> {
    if acceptable(log_cost, block_size, parallelism) {
        Some((log_cost, block_size, parallelism))
    } else {
        None
    }
}

/// The parameters that a format field and a parameter field stand for.
pub open spec fn decode_params(format: Seq<u8>, field: Seq<u8>) -> Option<(u8, u32, u32)> {
    match base64::decode_spec(field) {
        Some(raw) => if format == seq![48u8] && raw.len() == 3 {
            checked(raw[0], raw[1] as u32, raw[2] as u32)
        } else if format == seq![49u8] && raw.len() == 9 {
            checked(
                raw[0],
                le_value(raw[1], raw[2], raw[3], raw[4]),
                le_value(raw[5], raw[6], raw[7], raw[8]),
            )
        } else {
            None
        },
        None => None,
    }
}

/// What the bytes of an encoded hash hold, or `None` where they are not the
/// bytes of an encoded hash.
pub open spec fn decode_spec(text: Seq<u8>) -> Option<HashParts> {
    let fields = split_spec(text);
    if fields.len() == 7 && fields[0].len() == 0 && fields[1] == tag() && fields[6].len() == 0 {
        match (
            decode_params(fields[2], fields[3]),
            base64::decode_spec(fields[4]),
            base64::decode_spec(fields[5]),
        ) {
            (Some(values), Some(salt), Some(digest)) => if digest.len() == KEY_LEN {
                Some(
                    HashParts {
                        log_cost: values.0,
                        block_size: values.1,
                        parallelism: values.2,
                        salt,
                        digest,
                    },
                )
            } else {
                None
            },
            _ => None,
        }
    } else {
        None
    }
}

/// The first separator is where the first separator stands.
pub proof fn lemma_first_separator(text: Seq<u8>, k: int)
    requires
        0 <= k <= text.len(),
        forall|i: int| 0 <= i < k ==> #[trigger] text[i] != SEPARATOR,
        k == text.len() || text[k] == SEPARATOR,
    ensures
        first_separator(text) == k,
    decreases k,
{
    if k > 0 {
        let rest = text.skip(1);
        assert forall|i: int| 0 <= i < k - 1 implies #[trigger] rest[i] != SEPARATOR by {
            assert(rest[i] == text[i + 1]);
        }
        lemma_first_separator(rest, k - 1);
    }
}

/// Splitting undoes joining, where no field holds a separator.
pub proof fn lemma_split_join(fields: Seq<Seq<u8>>)
    requires
        fields.len() >= 1,
        forall|i: int| 0 <= i < fields.len() ==> is_plain(#[trigger] fields[i]),
    ensures
        split_spec(join_spec(fields)) == fields,
    decreases fields.len(),
{
    let text = join_spec(fields);
    let head = fields[0];
    assert(is_plain(head));
    if fields.len() == 1 {
        lemma_first_separator(text, text.len() as int);
        assert(seq![text] =~= fields);
    } else {
        let rest = fields.skip(1);
        assert forall|i: int| 0 <= i < rest.len() implies is_plain(#[trigger] rest[i]) by {
            assert(rest[i] == fields[i + 1]);
        }
        lemma_split_join(rest);
        let k = head.len() as int;
        assert forall|i: int| 0 <= i < k implies #[trigger] text[i] != SEPARATOR by {
            assert(text[i] == head[i]);
        }
        lemma_first_separator(text, k);
        assert(text.take(k) =~= head);
        assert(text.skip(k + 1) =~= join_spec(rest));
        assert(seq![head] + rest =~= fields);
    }
}

/// Base64 text holds no separator and only seven-bit bytes.
pub proof fn lemma_base64_plain(data: Seq<u8>)
    ensures
        is_plain(base64::encode_spec(data)),
        forall|i: int|
            0 <= i < base64::encode_spec(data).len() ==> #[trigger] base64::encode_spec(data)[i]
                < 128,
{
    base64::lemma_encode_shape(data);
    let text = base64::encode_spec(data);
    assert forall|i: int| 0 <= i < text.len() implies #[trigger] text[i] != SEPARATOR && text[i]
        < 128 by {
        assert(base64::is_text_byte(text[i]));
    }
}

/// The four bytes of a number give the number back.
pub proof fn lemma_le_value(x: u32)
    ensures
        le_bytes(x).len() == 4,
        le_value(le_bytes(x)[0], le_bytes(x)[1], le_bytes(x)[2], le_bytes(x)[3]) == x,
{
}

/// What `decode_spec` finds in the bytes of an encoded hash.
pub open spec fn parts_spec(params: CostParameters, salt: Seq<u8>, digest: Seq<u8>) -> HashParts {
    HashParts {
        log_cost: params.spec_log_cost(),
        block_size: params.spec_block_size(),
        parallelism: params.spec_parallelism(),
        salt,
        digest,
    }
}

/// Decoding undoes encoding: the bytes of an encoded hash give back the
/// parameters, the salt and the digest that went into them.
pub proof fn lemma_decode_encoded(params: CostParameters, salt: Seq<u8>, digest: Seq<u8>)
    requires
        params.is_valid(),
        digest.len() == KEY_LEN,
    ensures
        decode_spec(encoded_bytes(params, salt, digest)) == Some(parts_spec(params, salt, digest)),
{
    let fields = fields_spec(params, salt, digest);
    let raw = params_bytes(params);
    lemma_base64_plain(raw);
    lemma_base64_plain(salt);
    lemma_base64_plain(digest);
    assert forall|i: int| 0 <= i < fields.len() implies is_plain(#[trigger] fields[i]) by {
        assert(is_plain(fields[0]));
        assert(is_plain(fields[1]));
        assert(is_plain(fields[2]));
        assert(is_plain(fields[3]));
        assert(is_plain(fields[4]));
        assert(is_plain(fields[5]));
        assert(is_plain(fields[6]));
    }
    lemma_split_join(fields);
    base64::lemma_decode_encode(raw);
    base64::lemma_decode_encode(salt);
    base64::lemma_decode_encode(digest);
    params.lemma_valid_by_fields();
    lemma_le_value(params.spec_block_size());
    lemma_le_value(params.spec_parallelism());
    if is_compact(params) {
        assert(raw[1] as u32 == params.spec_block_size());
        assert(raw[2] as u32 == params.spec_parallelism());
    } else {
        assert(raw.len() == 9);
        assert(raw[1] == le_bytes(params.spec_block_size())[0]);
        assert(raw[2] == le_bytes(params.spec_block_size())[1]);
        assert(raw[3] == le_bytes(params.spec_block_size())[2]);
        assert(raw[4] == le_bytes(params.spec_block_size())[3]);
        assert(raw[5] == le_bytes(params.spec_parallelism())[0]);
        assert(raw[6] == le_bytes(params.spec_parallelism())[1]);
        assert(raw[7] == le_bytes(params.spec_parallelism())[2]);
        assert(raw[8] == le_bytes(params.spec_parallelism())[3]);
    }
}

/// The bytes of an encoded hash are seven-bit text, so that they are the
/// UTF-8 form of exactly one string.
pub proof fn lemma_encoded_is_text(params: CostParameters, salt: Seq<u8>, digest: Seq<u8>)
    ensures
        valid_utf8(encoded_bytes(params, salt, digest)),
        encode_utf8(encoded_text(params, salt, digest)) == encoded_bytes(params, salt, digest),
{
    let fields = fields_spec(params, salt, digest);
    lemma_base64_plain(params_bytes(params));
    lemma_base64_plain(salt);
    lemma_base64_plain(digest);
    assert forall|i: int| 0 <= i < fields.len() implies is_seven_bit(#[trigger] fields[i]) by {
        assert(is_seven_bit(fields[0]));
        assert(is_seven_bit(fields[1]));
        assert(is_seven_bit(fields[2]));
        assert(is_seven_bit(fields[3]));
        assert(is_seven_bit(fields[4]));
        assert(is_seven_bit(fields[5]));
        assert(is_seven_bit(fields[6]));
    }
    lemma_join_seven_bit(fields);
    lemma_seven_bit_is_text(encoded_bytes(params, salt, digest));
}

/// Whether every byte of `bytes` is below 128.
pub open spec fn is_seven_bit(bytes: Seq<u8>) -> bool {
    forall|i: int| 0 <= i < bytes.len() ==> #[trigger] bytes[i] < 128
}

/// Seven-bit fields join to seven-bit bytes.
pub proof fn lemma_join_seven_bit(fields: Seq<Seq<u8>>)
    requires
        forall|i: int| 0 <= i < fields.len() ==> is_seven_bit(#[trigger] fields[i]),
    ensures
        is_seven_bit(join_spec(fields)),
    decreases fields.len(),
{
    if fields.len() == 1 {
        assert(is_seven_bit(fields[0]));
    } else if fields.len() > 1 {
        let rest = fields.skip(1);
        assert forall|i: int| 0 <= i < rest.len() implies is_seven_bit(#[trigger] rest[i]) by {
            assert(rest[i] == fields[i + 1]);
        }
        lemma_join_seven_bit(rest);
        assert(is_seven_bit(fields[0]));
    }
}

/// Seven-bit bytes are UTF-8, one byte to the character.
pub proof fn lemma_seven_bit_is_text(bytes: Seq<u8>)
    requires
        is_seven_bit(bytes),
    ensures
        valid_utf8(bytes),
        encode_utf8(decode_utf8(bytes)) == bytes,
{
    assert(bytes.subrange(0, 0) =~= Seq::<u8>::empty());
    assert(partial_valid_utf8(bytes, 0));
    assert forall|i: int| 0 <= i < bytes.len() implies #[trigger] is_leading_byte_width_1(
        bytes[i],
    ) by {}
    partial_valid_utf8_extend_ascii_block(bytes, 0, bytes.len() as int);
    assert(bytes.subrange(0, bytes.len() as int) =~= bytes);
    decode_utf8_encode_utf8(bytes);
}

/// The byte strings that a vector of fields holds.
pub open spec fn field_views(fields: Seq<Vec<u8>>) -> Seq<Seq<u8>> {
    Seq::new(fields.len(), |i: int| fields[i]@)
}

/// Cuts `text` at its separators.
pub fn split(text: &[u8]) -> (fields: Vec<Vec<u8>>)
    ensures
        field_views(fields@) == split_spec(text@),
{
    let n = text.len();
    let mut fields: Vec<Vec<u8>> = Vec::new();
    let mut start: usize = 0;
    let mut i: usize = 0;
    proof {
        assert(text@.skip(0) =~= text@);
        assert(field_views(fields@) + split_spec(text@) =~= split_spec(text@));
    }
    while i < n
        invariant
            start <= i <= n,
            n == text@.len(),
            forall|j: int| start <= j < i ==> #[trigger] text@[j] != SEPARATOR,
            split_spec(text@) == field_views(fields@) + split_spec(text@.skip(start as int)),
        decreases n - i,
    {
        if text[i] == SEPARATOR {
            let ghost before = fields@;
            let ghost tail = text@.skip(start as int);
            let field = slice_to_vec(slice_subrange(text, start, i));
            proof {
                assert forall|j: int| 0 <= j < i - start implies #[trigger] tail[j]
                    != SEPARATOR by {
                    assert(tail[j] == text@[start + j]);
                }
                lemma_first_separator(tail, i - start);
                assert(tail.take(i - start) =~= field@);
                assert(tail.skip(i - start + 1) =~= text@.skip(i + 1));
            }
            fields.push(field);
            proof {
                assert(field_views(fields@) =~= field_views(before) + seq![field@]);
                assert(field_views(before) + (seq![field@] + split_spec(text@.skip(i + 1)))
                    =~= field_views(fields@) + split_spec(text@.skip(i + 1)));
            }
            start = i + 1;
        }
        i += 1;
    }
    let ghost before = fields@;
    let ghost tail = text@.skip(start as int);
    let field = slice_to_vec(slice_subrange(text, start, n));
    proof {
        assert forall|j: int| 0 <= j < n - start implies #[trigger] tail[j] != SEPARATOR by {
            assert(tail[j] == text@[start + j]);
        }
        lemma_first_separator(tail, n - start);
        assert(tail =~= field@);
    }
    fields.push(field);
    proof {
        assert(field_views(fields@) =~= field_views(before) + seq![field@]);
    }
    fields
}

fn push_le(out: &mut Vec<u8>, x: u32)
    ensures
        final(out)@ == old(out)@ + le_bytes(x),
{
    out.push((x % 256) as u8);
    out.push((x / 256 % 256) as u8);
    out.push((x / 65536 % 256) as u8);
    out.push((x / 16777216) as u8);
    proof {
        assert(out@ =~= old(out)@ + le_bytes(x));
    }
}

fn params_to_bytes(params: &CostParameters) -> (raw: Vec<u8>)
    ensures
        raw@ == params_bytes(*params),
{
    let block_size = params.block_size();
    let parallelism = params.parallelism();
    let mut raw: Vec<u8> = Vec::new();
    raw.push(params.log_cost());
    if block_size < 256 && parallelism < 256 {
        raw.push(block_size as u8);
        raw.push(parallelism as u8);
        proof {
            assert(raw@ =~= params_bytes(*params));
        }
    } else {
        push_le(&mut raw, block_size);
        push_le(&mut raw, parallelism);
        proof {
            assert(raw@ =~= params_bytes(*params));
        }
    }
    raw
}

/// Writes the parameters, the salt and the digest as one line of text.
pub fn encode(params: &CostParameters, salt: &[u8], digest: &[u8]) -> (text: String)
    ensures
        text@ == encoded_text(*params, salt@, digest@),
{
    let raw = params_to_bytes(params);
    let compact = params.block_size() < 256 && params.parallelism() < 256;
    let mut out: Vec<u8> = Vec::new();
    out.push(SEPARATOR);
    out.push(114);
    out.push(115);
    out.push(99);
    out.push(114);
    out.push(121);
    out.push(112);
    out.push(116);
    out.push(SEPARATOR);
    out.push(if compact { 48 } else { 49 });
    out.push(SEPARATOR);
    base64::encode_into(&mut out, raw.as_slice());
    out.push(SEPARATOR);
    base64::encode_into(&mut out, salt);
    out.push(SEPARATOR);
    base64::encode_into(&mut out, digest);
    out.push(SEPARATOR);
    proof {
        let fields = fields_spec(*params, salt@, digest@);
        let sep = seq![SEPARATOR];
        lemma_join_seven(fields);
        assert(out@ =~= fields[0] + sep + fields[1] + sep + fields[2] + sep + fields[3] + sep
            + fields[4] + sep + fields[5] + sep + fields[6]);
        lemma_encoded_is_text(*params, salt@, digest@);
    }
    match string_from_utf8(out) {
        Some(text) => text,
        None => vstd::pervasive::unreached(),
    }
}

/// Seven fields joined, written out.
proof fn lemma_join_seven(fields: Seq<Seq<u8>>)
    requires
        fields.len() == 7,
    ensures
        join_spec(fields) == fields[0] + seq![SEPARATOR] + fields[1] + seq![SEPARATOR] + fields[2]
            + seq![SEPARATOR] + fields[3] + seq![SEPARATOR] + fields[4] + seq![SEPARATOR]
            + fields[5] + seq![SEPARATOR] + fields[6],
{
    let sep = seq![SEPARATOR];
    let r1 = fields.skip(1);
    let r2 = r1.skip(1);
    let r3 = r2.skip(1);
    let r4 = r3.skip(1);
    let r5 = r4.skip(1);
    let r6 = r5.skip(1);
    assert(join_spec(r6) == fields[6]);
    assert(join_spec(r5) == fields[5] + sep + join_spec(r6));
    assert(join_spec(r4) == fields[4] + sep + join_spec(r5));
    assert(join_spec(r3) == fields[3] + sep + join_spec(r4));
    assert(join_spec(r2) == fields[2] + sep + join_spec(r3));
    assert(join_spec(r1) == fields[1] + sep + join_spec(r2));
    assert(join_spec(fields) == fields[0] + sep + join_spec(r1));
    assert(join_spec(fields) =~= fields[0] + sep + fields[1] + sep + fields[2] + sep + fields[3]
        + sep + fields[4] + sep + fields[5] + sep + fields[6]);
}

/// The parts of an encoded hash, as `decode` hands them out.
#[derive(Clone, Debug, PartialEq, Eq)]
pub struct DecodedHash {
    pub params: CostParameters,
    pub salt: Vec<u8>,
    pub digest: Vec<u8>,
}

impl View for DecodedHash {
    type V = HashParts;

    open spec fn view(&self) -> HashParts {
        parts_spec(self.params, self.salt@, self.digest@)
    }
}

fn is_tag(field: &[u8]) -> (same: bool)
    ensures
        same == (field@ == tag()),
{
    let same = field.len() == 7 && field[0] == 114 && field[1] == 115 && field[2] == 99
        && field[3] == 114 && field[4] == 121 && field[5] == 112 && field[6] == 116;
    proof {
        if same {
            assert(field@ =~= tag());
        }
    }
    same
}

fn le_to_value(b0: u8, b1: u8, b2: u8, b3: u8) -> (x: u32)
    ensures
        x == le_value(b0, b1, b2, b3),
{
    let low: u32 = (b0 as u32) + 256 * (b1 as u32) + 65536 * (b2 as u32);
    low + 16777216 * (b3 as u32)
}

fn parse_params(format: &[u8], field: &[u8]) -> (params: Option<CostParameters>)
    ensures
        match params {
            Some(p) => decode_params(format@, field@) == Some(
                (p.spec_log_cost(), p.spec_block_size(), p.spec_parallelism()),
            ),
            None => decode_params(format@, field@) is None,
        },
{
    if format.len() != 1 {
        return None;
    }
    let digit = format[0];
    proof {
        assert(digit == 48 ==> format@ =~= seq![48u8]);
        assert(digit == 49 ==> format@ =~= seq![49u8]);
        assert(format@ == seq![48u8] ==> format@[0] == 48);
        assert(format@ == seq![49u8] ==> format@[0] == 49);
    }
    let raw = match base64::decode(field) {
        Some(raw) => raw,
        None => {
            return None;
        },
    };
    let made = if digit == 48 && raw.len() == 3 {
        CostParameters::new(raw[0], raw[1] as u32, raw[2] as u32)
    } else if digit == 49 && raw.len() == 9 {
        CostParameters::new(
            raw[0],
            le_to_value(raw[1], raw[2], raw[3], raw[4]),
            le_to_value(raw[5], raw[6], raw[7], raw[8]),
        )
    } else {
        return None;
    };
    match made {
        Ok(p) => Some(p),
        Err(_) => None,
    }
}

/// Reads an encoded hash; `MalformedEncoding` where `text` is none.
pub fn decode(text: &str) -> (parts: Result<DecodedHash, AuthError>)
    ensures
        match parts {
            Ok(found) => decode_spec(encode_utf8(text@)) == Some(found@),
            Err(e) => e == AuthError::MalformedEncoding && decode_spec(encode_utf8(text@))
                is None,
        },
{
    let fields = split(text.as_bytes());
    proof {
        assert(fields@.len() == field_views(fields@).len());
        if fields@.len() == 7 {
            assert(field_views(fields@)[0] == fields@[0]@);
            assert(field_views(fields@)[1] == fields@[1]@);
            assert(field_views(fields@)[2] == fields@[2]@);
            assert(field_views(fields@)[3] == fields@[3]@);
            assert(field_views(fields@)[4] == fields@[4]@);
            assert(field_views(fields@)[5] == fields@[5]@);
            assert(field_views(fields@)[6] == fields@[6]@);
        }
    }
    if fields.len() != 7 {
        return Err(AuthError::MalformedEncoding);
    }
    if fields[0].len() != 0 || fields[6].len() != 0 || !is_tag(fields[1].as_slice()) {
        return Err(AuthError::MalformedEncoding);
    }
    let params = parse_params(fields[2].as_slice(), fields[3].as_slice());
    let salt = base64::decode(fields[4].as_slice());
    let digest = base64::decode(fields[5].as_slice());
    match (params, salt, digest) {
        (Some(params), Some(salt), Some(digest)) => {
            if digest.len() == KEY_LEN {
                Ok(DecodedHash { params, salt, digest })
            } else {
                Err(AuthError::MalformedEncoding)
            }
        },
        _ => Err(AuthError::MalformedEncoding),
    }
}

} // verus!

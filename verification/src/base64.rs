//! Base64 with the standard alphabet and `=` padding, over bytes.
//!
//! Decoding is strict: the text is a whole number of four-symbol groups, padding
//! stands only at the end of the last group, and the bits that padding leaves
//! unused are zero. Every byte string therefore has exactly one encoding.

use vstd::prelude::*;

verus! {

/// The padding symbol, `=`.
pub const PAD: u8 = 61;

/// The symbol that stands for the six-bit value `v`.
pub open spec fn symbol(v: int) -> u8 {
    if v < 26 {
        (v + 65) as u8
    } else if v < 52 {
        (v + 71) as u8
    } else if v < 62 {
        (v - 4) as u8
    } else if v == 62 {
        43
    } else {
        47
    }
}

/// The six-bit value that the symbol `c` stands for, if it is in the alphabet.
pub open spec fn sextet(c: u8) -> Option<int> {
    if 65 <= c <= 90 {
        Some(c - 65)
    } else if 97 <= c <= 122 {
        Some(c - 71)
    } else if 48 <= c <= 57 {
        Some(c + 4)
    } else if c == 43 {
        Some(62)
    } else if c == 47 {
        Some(63)
    } else {
        None
    }
}

/// Whether `c` may occur in base64 text at all.
pub open spec fn is_text_byte(c: u8) -> bool {
    sextet(c) is Some || c == PAD
}

/// The four symbols for three bytes.
pub open spec fn encode_group(b0: u8, b1: u8, b2: u8) -> Seq<u8> {
    seq![
        symbol(b0 as int / 4),
        symbol((b0 as int % 4) * 16 + b1 as int / 16),
        symbol((b1 as int % 16) * 4 + b2 as int / 64),
        symbol(b2 as int % 64),
    ]
}

/// The base64 text of `data`.
pub open spec fn encode_spec(data: Seq<u8>) -> Seq<u8>
    decreases data.len(),
{
    if data.len() == 0 {
        Seq::empty()
    } else if data.len() == 1 {
        seq![symbol(data[0] as int / 4), symbol((data[0] as int % 4) * 16), PAD, PAD]
    } else if data.len() == 2 {
        seq![
            symbol(data[0] as int / 4),
            symbol((data[0] as int % 4) * 16 + data[1] as int / 16),
            symbol((data[1] as int % 16) * 4),
            PAD,
        ]
    } else {
        encode_group(data[0], data[1], data[2]) + encode_spec(data.skip(3))
    }
}

/// The three bytes of a group of four alphabet symbols.
pub open spec fn decode_group(c0: u8, c1: u8, c2: u8, c3: u8) -> Option<Seq<u8>> {
    match (sextet(c0), sextet(c1), sextet(c2), sextet(c3)) {
        (Some(v0), Some(v1), Some(v2), Some(v3)) => Some(
            seq![
                (v0 * 4 + v1 / 16) as u8,
                ((v1 % 16) * 16 + v2 / 4) as u8,
                ((v2 % 4) * 64 + v3) as u8,
            ],
        ),
        _ => None,
    }
}

/// The bytes of the last group of a text, which alone may be padded.
pub open spec fn decode_last_group(c0: u8, c1: u8, c2: u8, c3: u8) -> Option<Seq<u8>> {
    if c3 != PAD {
        decode_group(c0, c1, c2, c3)
    } else if c2 != PAD {
        match (sextet(c0), sextet(c1), sextet(c2)) {
            (Some(v0), Some(v1), Some(v2)) => if v2 % 4 == 0 {
                Some(seq![(v0 * 4 + v1 / 16) as u8, ((v1 % 16) * 16 + v2 / 4) as u8])
            } else {
                None
            },
            _ => None,
        }
    } else {
        match (sextet(c0), sextet(c1)) {
            (Some(v0), Some(v1)) => if v1 % 16 == 0 {
                Some(seq![(v0 * 4 + v1 / 16) as u8])
            } else {
                None
            },
            _ => None,
        }
    }
}

/// The bytes that `text` encodes, or `None` where `text` is not the base64
/// text of any byte string.
pub open spec fn decode_spec(text: Seq<u8>) -> Option<Seq<u8>>
    decreases text.len(),
{
    if text.len() == 0 {
        Some(Seq::empty())
    } else if text.len() < 4 {
        None
    } else if text.len() == 4 {
        decode_last_group(text[0], text[1], text[2], text[3])
    } else {
        match decode_group(text[0], text[1], text[2], text[3]) {
            Some(head) => match decode_spec(text.skip(4)) {
                Some(rest) => Some(head + rest),
                None => None,
            },
            None => None,
        }
    }
}

/// The length of the base64 text of `n` bytes.
pub open spec fn encoded_len(n: nat) -> nat {
    4 * ((n + 2) / 3)
}

/// A symbol decodes to the value it stands for, and is neither padding nor
/// outside the seven-bit range.
pub proof fn lemma_symbol(v: int)
    requires
        0 <= v < 64,
    ensures
        sextet(symbol(v)) == Some(v),
        symbol(v) != PAD,
        symbol(v) < 128,
{
}

/// The value of a symbol is a six-bit number, and the symbol for that value
/// is the symbol itself.
pub proof fn lemma_sextet(c: u8)
    requires
        sextet(c) is Some,
    ensures
        0 <= sextet(c)->0 < 64,
        symbol(sextet(c)->0) == c,
{
}

/// The text of `n` bytes has `encoded_len(n)` symbols, all of them symbols of
/// the alphabet or padding.
pub proof fn lemma_encode_shape(data: Seq<u8>)
    ensures
        encode_spec(data).len() == encoded_len(data.len()),
        forall|i: int|
            0 <= i < encode_spec(data).len() ==> is_text_byte(#[trigger] encode_spec(data)[i]),
    decreases data.len(),
{
    if data.len() == 0 {
    } else if data.len() == 1 {
        lemma_symbol(data[0] as int / 4);
        lemma_symbol((data[0] as int % 4) * 16);
    } else if data.len() == 2 {
        lemma_symbol(data[0] as int / 4);
        lemma_symbol((data[0] as int % 4) * 16 + data[1] as int / 16);
        lemma_symbol((data[1] as int % 16) * 4);
    } else {
        lemma_encode_shape(data.skip(3));
        lemma_group(data[0], data[1], data[2]);
        let head = encode_group(data[0], data[1], data[2]);
        let rest = encode_spec(data.skip(3));
        assert forall|i: int| 0 <= i < encode_spec(data).len() implies is_text_byte(
            #[trigger] encode_spec(data)[i],
        ) by {
            if i >= 4 {
                assert(encode_spec(data)[i] == rest[i - 4]);
            } else {
                assert(encode_spec(data)[i] == head[i]);
            }
        }
    }
}

/// A group of three bytes is four alphabet symbols that decode to the bytes.
pub proof fn lemma_group(b0: u8, b1: u8, b2: u8)
    ensures
        encode_group(b0, b1, b2).len() == 4,
        forall|i: int|
            0 <= i < 4 ==> sextet(#[trigger] encode_group(b0, b1, b2)[i]) is Some,
        decode_group(
            encode_group(b0, b1, b2)[0],
            encode_group(b0, b1, b2)[1],
            encode_group(b0, b1, b2)[2],
            encode_group(b0, b1, b2)[3],
        ) == Some(seq![b0, b1, b2]),
{
    let v0 = b0 as int / 4;
    let v1 = (b0 as int % 4) * 16 + b1 as int / 16;
    let v2 = (b1 as int % 16) * 4 + b2 as int / 64;
    let v3 = b2 as int % 64;
    lemma_symbol(v0);
    lemma_symbol(v1);
    lemma_symbol(v2);
    lemma_symbol(v3);
    assert(v0 * 4 + v1 / 16 == b0);
    assert((v1 % 16) * 16 + v2 / 4 == b1);
    assert((v2 % 4) * 64 + v3 == b2);
    assert(seq![
        (v0 * 4 + v1 / 16) as u8,
        ((v1 % 16) * 16 + v2 / 4) as u8,
        ((v2 % 4) * 64 + v3) as u8,
    ] =~= seq![b0, b1, b2]);
}

/// Decoding undoes encoding.
pub proof fn lemma_decode_encode(data: Seq<u8>)
    ensures
        decode_spec(encode_spec(data)) == Some(data),
    decreases data.len(),
{
    let text = encode_spec(data);
    lemma_encode_shape(data);
    if data.len() == 0 {
        assert(data =~= Seq::empty());
    } else if data.len() == 1 {
        let v0 = data[0] as int / 4;
        let v1 = (data[0] as int % 4) * 16;
        lemma_symbol(v0);
        lemma_symbol(v1);
        assert(v0 * 4 + v1 / 16 == data[0]);
        assert(seq![(v0 * 4 + v1 / 16) as u8] =~= data);
    } else if data.len() == 2 {
        let v0 = data[0] as int / 4;
        let v1 = (data[0] as int % 4) * 16 + data[1] as int / 16;
        let v2 = (data[1] as int % 16) * 4;
        lemma_symbol(v0);
        lemma_symbol(v1);
        lemma_symbol(v2);
        assert(v0 * 4 + v1 / 16 == data[0]);
        assert((v1 % 16) * 16 + v2 / 4 == data[1]);
        assert(seq![(v0 * 4 + v1 / 16) as u8, ((v1 % 16) * 16 + v2 / 4) as u8] =~= data);
    } else {
        let head = encode_group(data[0], data[1], data[2]);
        let rest = encode_spec(data.skip(3));
        lemma_group(data[0], data[1], data[2]);
        lemma_encode_shape(data.skip(3));
        lemma_decode_encode(data.skip(3));
        assert(text[0] == head[0] && text[1] == head[1] && text[2] == head[2] && text[3]
            == head[3]);
        assert(seq![data[0], data[1], data[2]] + data.skip(3) =~= data);
        if data.len() == 3 {
            assert(rest.len() == 0);
            assert(sextet(head[3]) is Some);
            assert(data.skip(3) =~= Seq::empty());
        } else {
            assert(text.skip(4) =~= rest);
        }
    }
}

/// Encoding undoes decoding: a text that decodes is the one text of its bytes.
pub proof fn lemma_encode_decode(text: Seq<u8>)
    requires
        decode_spec(text) is Some,
    ensures
        encode_spec(decode_spec(text)->0) == text,
    decreases text.len(),
{
    let data = decode_spec(text)->0;
    if text.len() == 0 {
        assert(text =~= Seq::empty());
    } else if text.len() == 4 {
        if text[3] != PAD {
            lemma_ungroup(text[0], text[1], text[2], text[3]);
            assert(data.len() == 3);
            assert(encode_spec(data.skip(3)) =~= Seq::empty());
            assert(encode_spec(data) =~= text);
        } else if text[2] != PAD {
            let v0 = sextet(text[0])->0;
            let v1 = sextet(text[1])->0;
            let v2 = sextet(text[2])->0;
            lemma_sextet(text[0]);
            lemma_sextet(text[1]);
            lemma_sextet(text[2]);
            assert(data.len() == 2);
            assert(data[0] == v0 * 4 + v1 / 16);
            assert(data[1] == (v1 % 16) * 16 + v2 / 4);
            assert(data[0] as int / 4 == v0);
            assert((data[0] as int % 4) * 16 + data[1] as int / 16 == v1);
            assert((data[1] as int % 16) * 4 == v2);
            assert(encode_spec(data) =~= text);
        } else {
            let v0 = sextet(text[0])->0;
            let v1 = sextet(text[1])->0;
            lemma_sextet(text[0]);
            lemma_sextet(text[1]);
            assert(data[0] as int / 4 == v0);
            assert((data[0] as int % 4) * 16 == v1);
            assert(encode_spec(data) =~= text);
        }
    } else {
        let head = decode_group(text[0], text[1], text[2], text[3])->0;
        let rest = decode_spec(text.skip(4))->0;
        lemma_ungroup(text[0], text[1], text[2], text[3]);
        lemma_encode_decode(text.skip(4));
        lemma_decode_len(text.skip(4));
        assert(data.skip(3) =~= rest);
        assert(encode_spec(data) =~= text);
    }
}

/// Three bytes decoded from four alphabet symbols encode to those symbols.
pub proof fn lemma_ungroup(c0: u8, c1: u8, c2: u8, c3: u8)
    requires
        decode_group(c0, c1, c2, c3) is Some,
    ensures
        decode_group(c0, c1, c2, c3)->0.len() == 3,
        encode_group(
            decode_group(c0, c1, c2, c3)->0[0],
            decode_group(c0, c1, c2, c3)->0[1],
            decode_group(c0, c1, c2, c3)->0[2],
        ) =~= seq![c0, c1, c2, c3],
{
    let v0 = sextet(c0)->0;
    let v1 = sextet(c1)->0;
    let v2 = sextet(c2)->0;
    let v3 = sextet(c3)->0;
    lemma_sextet(c0);
    lemma_sextet(c1);
    lemma_sextet(c2);
    lemma_sextet(c3);
    let b0 = v0 * 4 + v1 / 16;
    let b1 = (v1 % 16) * 16 + v2 / 4;
    let b2 = (v2 % 4) * 64 + v3;
    assert(b0 / 4 == v0);
    assert((b0 % 4) * 16 + b1 / 16 == v1);
    assert((b1 % 16) * 4 + b2 / 64 == v2);
    assert(b2 % 64 == v3);
}

/// A text of `4k` symbols, `k > 0`, decodes to `3k - 2`, `3k - 1` or `3k` bytes.
pub proof fn lemma_decode_len(text: Seq<u8>)
    requires
        decode_spec(text) is Some,
    ensures
        text.len() % 4 == 0,
        decode_spec(text)->0.len() <= 3 * (text.len() / 4),
        text.len() > 0 ==> decode_spec(text)->0.len() + 3 > 3 * (text.len() / 4),
    decreases text.len(),
{
    if text.len() > 4 {
        lemma_decode_len(text.skip(4));
    }
}

/// `head` put in front of what the rest of a text decodes to.
pub open spec fn prepend(head: Seq<u8>, rest: Option<Seq<u8>>) -> Option<Seq<u8>> {
    match rest {
        Some(tail) => Some(head + tail),
        None => None,
    }
}

fn symbol_of(v: u8) -> (c: u8)
    requires
        v < 64,
    ensures
        c == symbol(v as int),
{
    if v < 26 {
        v + 65
    } else if v < 52 {
        v + 71
    } else if v < 62 {
        v - 4
    } else if v == 62 {
        43
    } else {
        47
    }
}

fn sextet_of(c: u8) -> (v: Option<u8>)
    ensures
        match v {
            Some(x) => sextet(c) == Some(x as int),
            None => sextet(c) is None,
        },
{
    if 65 <= c && c <= 90 {
        Some(c - 65)
    } else if 97 <= c && c <= 122 {
        Some(c - 71)
    } else if 48 <= c && c <= 57 {
        Some(c + 4)
    } else if c == 43 {
        Some(62)
    } else if c == 47 {
        Some(63)
    } else {
        None
    }
}

/// Writes `data` as base64 text at the end of `out`.
pub fn encode_into(out: &mut Vec<u8>, data: &[u8])
    ensures
        final(out)@ == old(out)@ + encode_spec(data@),
{
    let n = data.len();
    let mut i: usize = 0;
    proof {
        assert(data@.skip(0) =~= data@);
    }
    while n - i >= 3
        invariant
            i <= n,
            n == data@.len(),
            old(out)@ + encode_spec(data@) == out@ + encode_spec(data@.skip(i as int)),
        decreases n - i,
    {
        let b0 = data[i];
        let b1 = data[i + 1];
        let b2 = data[i + 2];
        let ghost before = out@;
        let ghost tail = data@.skip(i as int);
        out.push(symbol_of(b0 / 4));
        out.push(symbol_of((b0 % 4) * 16 + b1 / 16));
        out.push(symbol_of((b1 % 16) * 4 + b2 / 64));
        out.push(symbol_of(b2 % 64));
        proof {
            assert(tail[0] == b0 && tail[1] == b1 && tail[2] == b2);
            assert(tail.skip(3) =~= data@.skip(i + 3));
            assert(out@ =~= before + encode_group(b0, b1, b2));
            assert(before + (encode_group(b0, b1, b2) + encode_spec(tail.skip(3))) =~= before
                + encode_group(b0, b1, b2) + encode_spec(tail.skip(3)));
        }
        i += 3;
    }
    let ghost before = out@;
    let ghost tail = data@.skip(i as int);
    if n - i == 1 {
        let b0 = data[i];
        out.push(symbol_of(b0 / 4));
        out.push(symbol_of((b0 % 4) * 16));
        out.push(PAD);
        out.push(PAD);
        proof {
            assert(tail[0] == b0);
            assert(out@ =~= before + encode_spec(tail));
        }
    } else if n - i == 2 {
        let b0 = data[i];
        let b1 = data[i + 1];
        out.push(symbol_of(b0 / 4));
        out.push(symbol_of((b0 % 4) * 16 + b1 / 16));
        out.push(symbol_of((b1 % 16) * 4));
        out.push(PAD);
        proof {
            assert(tail[0] == b0 && tail[1] == b1);
            assert(out@ =~= before + encode_spec(tail));
        }
    } else {
        assert(out@ =~= before + encode_spec(tail));
    }
}

/// Writes `data` as base64 text.
pub fn encode(data: &[u8]) -> (text: Vec<u8>)
    ensures
        text@ == encode_spec(data@),
{
    let mut text: Vec<u8> = Vec::new();
    encode_into(&mut text, data);
    proof {
        assert(Seq::<u8>::empty() + encode_spec(data@) =~= encode_spec(data@));
    }
    text
}

fn decode_group_of(c0: u8, c1: u8, c2: u8, c3: u8) -> (bytes: Option<(u8, u8, u8)>)
    ensures
        match bytes {
            Some(b) => decode_group(c0, c1, c2, c3) == Some(seq![b.0, b.1, b.2]),
            None => decode_group(c0, c1, c2, c3) is None,
        },
{
    match (sextet_of(c0), sextet_of(c1), sextet_of(c2), sextet_of(c3)) {
        (Some(v0), Some(v1), Some(v2), Some(v3)) => Some(
            (v0 * 4 + v1 / 16, (v1 % 16) * 16 + v2 / 4, (v2 % 4) * 64 + v3),
        ),
        _ => None,
    }
}

fn decode_last_group_into(out: &mut Vec<u8>, c0: u8, c1: u8, c2: u8, c3: u8) -> (done: bool)
    ensures
        match decode_last_group(c0, c1, c2, c3) {
            Some(b) => done && final(out)@ == old(out)@ + b,
            None => !done,
        },
{
    if c3 != PAD {
        match decode_group_of(c0, c1, c2, c3) {
            Some(b) => {
                out.push(b.0);
                out.push(b.1);
                out.push(b.2);
                proof {
                    assert(out@ =~= old(out)@ + seq![b.0, b.1, b.2]);
                }
                true
            },
            None => false,
        }
    } else if c2 != PAD {
        match (sextet_of(c0), sextet_of(c1), sextet_of(c2)) {
            (Some(v0), Some(v1), Some(v2)) => {
                if v2 % 4 != 0 {
                    return false;
                }
                out.push(v0 * 4 + v1 / 16);
                out.push((v1 % 16) * 16 + v2 / 4);
                proof {
                    assert(out@ =~= old(out)@ + decode_last_group(c0, c1, c2, c3)->0);
                }
                true
            },
            _ => false,
        }
    } else {
        match (sextet_of(c0), sextet_of(c1)) {
            (Some(v0), Some(v1)) => {
                if v1 % 16 != 0 {
                    return false;
                }
                out.push(v0 * 4 + v1 / 16);
                proof {
                    assert(out@ =~= old(out)@ + decode_last_group(c0, c1, c2, c3)->0);
                }
                true
            },
            _ => false,
        }
    }
}

/// One step of `decode_spec` on a text of more than four symbols.
proof fn lemma_decode_step(text: Seq<u8>, i: int)
    requires
        0 <= i,
        i + 4 < text.len(),
    ensures
        decode_spec(text.skip(i)) == match decode_group(
            text[i],
            text[i + 1],
            text[i + 2],
            text[i + 3],
        ) {
            Some(head) => prepend(head, decode_spec(text.skip(i + 4))),
            None => None,
        },
{
    let tail = text.skip(i);
    assert(tail.len() > 4);
    assert(tail[0] == text[i] && tail[1] == text[i + 1] && tail[2] == text[i + 2] && tail[3]
        == text[i + 3]);
    assert(tail.skip(4) =~= text.skip(i + 4));
}

/// The last step of `decode_spec`.
proof fn lemma_decode_last(text: Seq<u8>, i: int)
    requires
        0 <= i,
        i + 4 == text.len(),
    ensures
        decode_spec(text.skip(i)) == decode_last_group(
            text[i],
            text[i + 1],
            text[i + 2],
            text[i + 3],
        ),
{
    let tail = text.skip(i);
    assert(tail.len() == 4);
    assert(tail[0] == text[i] && tail[1] == text[i + 1] && tail[2] == text[i + 2] && tail[3]
        == text[i + 3]);
}

/// Putting `a` in front of what `b` was put in front of.
proof fn lemma_prepend_twice(a: Seq<u8>, b: Seq<u8>, rest: Option<Seq<u8>>)
    ensures
        prepend(a, prepend(b, rest)) == prepend(a + b, rest),
{
    match rest {
        Some(tail) => {
            assert(a + (b + tail) =~= a + b + tail);
        },
        None => {},
    }
}

/// Reads base64 text back into bytes; `None` where `text` is no base64 text.
pub fn decode(text: &[u8]) -> (data: Option<Vec<u8>>)
    ensures
        match data {
            Some(bytes) => decode_spec(text@) == Some(bytes@),
            None => decode_spec(text@) is None,
        },
{
    let n = text.len();
    let mut bytes: Vec<u8> = Vec::new();
    if n == 0 {
        return Some(bytes);
    }
    if n % 4 != 0 {
        proof {
            if decode_spec(text@) is Some {
                lemma_decode_len(text@);
            }
        }
        return None;
    }
    let mut i: usize = 0;
    proof {
        assert(text@.skip(0) =~= text@);
        lemma_prepend_twice(Seq::empty(), Seq::empty(), decode_spec(text@));
        match decode_spec(text@) {
            Some(all) => {
                assert(Seq::<u8>::empty() + all =~= all);
            },
            None => {},
        }
    }
    while n - i > 4
        invariant
            i < n,
            i % 4 == 0,
            n % 4 == 0,
            n == text@.len(),
            decode_spec(text@) == prepend(bytes@, decode_spec(text@.skip(i as int))),
        decreases n - i,
    {
        let ghost before = bytes@;
        proof {
            lemma_decode_step(text@, i as int);
        }
        match decode_group_of(text[i], text[i + 1], text[i + 2], text[i + 3]) {
            Some(b) => {
                bytes.push(b.0);
                bytes.push(b.1);
                bytes.push(b.2);
                proof {
                    assert(bytes@ =~= before + seq![b.0, b.1, b.2]);
                    lemma_prepend_twice(
                        before,
                        seq![b.0, b.1, b.2],
                        decode_spec(text@.skip(i + 4)),
                    );
                }
            },
            None => {
                return None;
            },
        }
        i += 4;
    }
    proof {
        lemma_decode_last(text@, i as int);
    }
    if decode_last_group_into(&mut bytes, text[i], text[i + 1], text[i + 2], text[i + 3]) {
        Some(bytes)
    } else {
        None
    }
}

} // verus!

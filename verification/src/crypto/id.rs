//! User IDs: an Ed25519 public key written as 64 hexadecimal digits.

use vstd::prelude::*;
use vstd::utf8::{
    decode_utf8, encode_utf8, encode_utf8_decode_utf8, is_ascii_chars, is_ascii_chars_encode_utf8,
    is_char_boundary,
};

use crate::text::{
    byte_len, decimal, is_white_space, lemma_ascii_prefix, lemma_trimmed_id, lemma_utf8_injective,
    push_decimal, trimmed,
};

verus! {

pub const ID_HEX_LEN: usize = 64;

/// The error type of the `hex` crate.
#[verifier::external_type_specification]
#[verifier::external_body]
pub struct ExFromHexError(hex::FromHexError);

/// The lower-case hexadecimal digit of a value below 16.
pub open spec fn hex_digit(n: int) -> char {
    if n < 10 {
        ('0' as int + n) as char
    } else {
        ('a' as int + n - 10) as char
    }
}

/// Bytes in lower-case hexadecimal, two digits each.
pub open spec fn hex_text(b: Seq<u8>) -> Seq<char> {
    Seq::new(
        2 * b.len(),
        |i: int|
            if i % 2 == 0 {
                hex_digit(b[i / 2] as int / 16)
            } else {
                hex_digit(b[i / 2] as int % 16)
            },
    )
}

/// Whether a byte is a hexadecimal digit of either case.
pub open spec fn is_hex(c: u8) -> bool {
    ||| '0' as int <= c <= '9' as int
    ||| 'a' as int <= c <= 'f' as int
    ||| 'A' as int <= c <= 'F' as int
}

/// The value of a hexadecimal digit of either case.
pub open spec fn hex_digit_value(c: u8) -> int {
    if c <= '9' as int {
        c - '0' as int
    } else if c <= 'F' as int {
        c - 'A' as int + 10
    } else {
        c - 'a' as int + 10
    }
}

/// The bytes that hexadecimal digits stand for, `None` where the length is
/// odd or a byte is no digit.
pub open spec fn hex_value(t: Seq<u8>) -> Option<Seq<u8>> {
    if t.len() % 2 == 0 && forall|i: int| 0 <= i < t.len() ==> #[trigger] is_hex(t[i]) {
        Some(
            Seq::new(
                t.len() / 2,
                |i: int| (16 * hex_digit_value(t[2 * i]) + hex_digit_value(t[2 * i + 1])) as u8,
            ),
        )
    } else {
        None
    }
}

/// `hex::encode`: lower-case digits, two for each byte.
#[verifier::external_body]
pub(crate) fn hex_encode(data: &[u8]) -> (r: String)
    ensures
        r@ == hex_text(data@),
{
    hex::encode(data)
}

/// `hex::decode`: digits of either case, an even number of them.
#[verifier::external_body]
pub(crate) fn hex_decode(data: &[u8]) -> (r: Result<Vec<u8>, hex::FromHexError>)
    ensures
        r is Ok <==> hex_value(data@) is Some,
        r matches Ok(b) ==> hex_value(data@) == Some(b@),
{
    hex::decode(data)
}

/// `hex::decode_to_slice` into 32 bytes: it fails where the text is not
/// hexadecimal or does not stand for 32 bytes.
#[verifier::external_body]
pub(crate) fn hex_decode_32(data: &[u8]) -> (r: Result<[u8; 32], hex::FromHexError>)
    ensures
        r is Ok <==> (hex_value(data@) matches Some(b) && b.len() == 32),
        r matches Ok(a) ==> hex_value(data@) == Some(a@),
{
    let mut out = [0u8; 32];
    hex::decode_to_slice(data, &mut out)?;
    Ok(out)
}

/// Why a text is not a user ID.
#[derive(Clone, Copy, Debug, PartialEq, Eq, Structural)]
pub enum IdError {
    /// The text has this many bytes instead of 64.
    Length(usize),
    /// The text is not hexadecimal.
    Hex,
}

impl IdError {
    pub open spec fn text(self) -> Seq<char> {
        match self {
            IdError::Length(n) => "用户 ID 应为 64 位 hex（公钥），收到 "@ + decimal(n as nat) + " 位"@,
            IdError::Hex => "用户 ID 不是合法的 hex"@,
        }
    }

    pub fn message(&self) -> (r: String)
        ensures
            r@ == self.text(),
    {
        match self {
            IdError::Length(n) => {
                let mut s = "用户 ID 应为 64 位 hex（公钥），收到 ".to_owned();
                push_decimal(&mut s, *n as u64);
                s.append(" 位");
                s
            },
            IdError::Hex => "用户 ID 不是合法的 hex".to_owned(),
        }
    }
}

/// The user ID of a public key.
pub fn encode(pubkey: [u8; 32]) -> (r: String)
    ensures
        r@ == hex_text(pubkey@),
{
    hex_encode(&pubkey)
}

/// What [`decode`] makes of a text.
pub open spec fn id_of_text(s: Seq<char>) -> Result<Seq<u8>, IdError> {
    let t = encode_utf8(trimmed(s));
    if t.len() != ID_HEX_LEN {
        Err(IdError::Length(t.len() as usize))
    } else {
        match hex_value(t) {
            Some(b) => Ok(b),
            None => Err(IdError::Hex),
        }
    }
}

/// The public key of a user ID; blanks around it do not count.
pub fn decode(s: &str) -> (r: Result<[u8; 32], IdError>)
    ensures
        match id_of_text(s@) {
            Ok(b) => r matches Ok(a) && a@ == b,
            Err(e) => r == Err::<[u8; 32], IdError>(e),
        },
{
    let t = s.trim();
    let n: usize = byte_len(t);
    if n != ID_HEX_LEN {
        return Err(IdError::Length(n));
    }
    match hex_decode_32(t.as_bytes()) {
        Ok(a) => Ok(a),
        Err(_) => Err(IdError::Hex),
    }
}

/// Hexadecimal text is ASCII without blanks, and stands for the bytes that it
/// was made from.
pub proof fn lemma_hex_text(b: Seq<u8>)
    ensures
        is_ascii_chars(hex_text(b)),
        forall|i: int| 0 <= i < 2 * b.len() ==> !is_white_space(#[trigger] hex_text(b)[i]),
        encode_utf8(hex_text(b)).len() == 2 * b.len(),
        hex_value(encode_utf8(hex_text(b))) == Some(b),
{
    let t = hex_text(b);
    assert forall|i: int| 0 <= i < t.len() implies '\0' <= #[trigger] t[i] <= '\u{7f}' by {
        assert(0 <= b[i / 2] as int / 16 < 16);
    }
    is_ascii_chars_encode_utf8(t);
    let u = encode_utf8(t);
    assert forall|i: int| 0 <= i < u.len() implies #[trigger] is_hex(u[i]) by {
        assert(t[i] as u8 == u[i]);
    }
    assert forall|i: int| 0 <= i < b.len() implies (16 * hex_digit_value(u[2 * i])
        + hex_digit_value(u[2 * i + 1])) as u8 == #[trigger] b[i] by {
        assert(t[2 * i] as u8 == u[2 * i]);
        assert(t[2 * i + 1] as u8 == u[2 * i + 1]);
    }
    assert(hex_value(u).unwrap() =~= b);
}

/// Decoding a user ID gives back the public key that it was made from.
pub proof fn law_id_round_trip(pubkey: Seq<u8>)
    requires
        pubkey.len() == 32,
    ensures
        id_of_text(hex_text(pubkey)) == Ok::<Seq<u8>, IdError>(pubkey),
{
    lemma_hex_text(pubkey);
    lemma_trimmed_id(hex_text(pubkey));
}

/// The first 12 digits of a user ID.
pub fn short(pubkey: &[u8; 32]) -> (r: String)
    ensures
        r@ == hex_text(pubkey@).take(12),
{
    let h = encode(*pubkey);
    proof {
        lemma_hex_text(pubkey@);
        lemma_ascii_prefix(h@, 12);
    }
    let r = short_from_hex(&h);
    proof {
        lemma_utf8_injective(r@, h@.take(12));
    }
    r
}

/// The first 12 bytes of a text, the whole of a shorter one.
pub fn short_from_hex(s: &str) -> (r: String)
    requires
        encode_utf8(s@).len() >= 12 ==> is_char_boundary(encode_utf8(s@), 12),
    ensures
        encode_utf8(r@) == if encode_utf8(s@).len() >= 12 {
            encode_utf8(s@).take(12)
        } else {
            encode_utf8(s@)
        },
{
    if byte_len(s) >= 12 {
        s.split_at(12).0.to_owned()
    } else {
        s.to_owned()
    }
}

/// How a stored user ID is shown: its first 12 bytes where they are whole
/// characters, else all of it.
pub open spec fn shown_id(s: Seq<char>) -> Seq<char> {
    let b = encode_utf8(s);
    if b.len() >= 12 && is_char_boundary(b, 12) {
        decode_utf8(b.take(12))
    } else {
        s
    }
}

/// The short form of a stored user ID, whatever it holds.
pub fn show_id(s: &str) -> (r: String)
    ensures
        r@ == shown_id(s@),
{
    if byte_len(s) >= 12 && s.is_char_boundary(12) {
        let r = short_from_hex(s);
        proof {
            encode_utf8_decode_utf8(r@);
        }
        r
    } else {
        s.to_owned()
    }
}

/// The user ID of a public key is shown by its first 12 digits.
pub proof fn lemma_shown_id(pubkey: Seq<u8>)
    requires
        pubkey.len() >= 6,
    ensures
        shown_id(hex_text(pubkey)) == hex_text(pubkey).take(12),
{
    let h = hex_text(pubkey);
    lemma_hex_text(pubkey);
    lemma_ascii_prefix(h, 12);
    encode_utf8_decode_utf8(h.take(12));
}

} // verus!

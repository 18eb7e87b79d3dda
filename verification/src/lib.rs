//! A reversible codec between byte buffers and a five-word vocabulary.
//!
//! Bytes are read as a bit stream and matched, greedily and in a fixed rule
//! order, against a small prefix code whose codes are one, two or three bits
//! long; each code names one of five fixed text tokens. The inverse direction
//! tokenizes such a text, replays each token's bit-code, drops trailing bits
//! that do not fill a byte, and packs the rest back into bytes.

use vstd::prelude::*;
use vstd::utf8::{decode_utf8, encode_utf8, valid_utf8};

pub mod bits;
pub mod error;
pub mod words;

use crate::bits::{bits_of_bytes, bytes_of_bits};
use crate::error::{ByteStyleError, ByteStyleResult};
use crate::words::{
    bad_remainder, encode_bits, render, tokenize, words_bits, Word, Words,
};

verus! {

/// Relies on String::from_utf8: it returns a string exactly when the bytes
/// are valid UTF-8, and then the string those bytes spell.
#[verifier::external_body]
fn string_from_utf8(bytes: Vec<u8>) -> (r: Option<String>)
    ensures
        r is Some <==> valid_utf8(bytes@),
        r matches Some(s) ==> s@ == decode_utf8(bytes@),
{
    String::from_utf8(bytes).ok()
}

/// Encodes the UTF-8 bytes of `input` as a space-joined sequence of code
/// words. The bit grammar is complete, so this never fails.
pub fn encode_to_byte_style(input: &str) -> (r: ByteStyleResult<String>)
    ensures
        r matches Ok(s) && s@ == render(encode_bits(bits_of_bytes(encode_utf8(input@)))),
{
    let words = Words::parse_from_bits(input.as_bytes());
    Ok(words.to_string())
}

/// Decodes a code-word string back to text: tokenizes it (failing with
/// `Parse` on an unrecognized remainder), replays the symbols' bit-codes,
/// drops trailing bits that do not fill a byte, packs the rest into bytes,
/// and reads those as UTF-8 (failing with `FromUtf8` when they are not).
pub fn decode_from_byte_style(input: &str) -> (r: ByteStyleResult<String>)
    ensures
        match tokenize(input@) {
            Some(ws) => {
                let bytes = bytes_of_bits(words_bits(ws));
                if valid_utf8(bytes) {
                    r matches Ok(s) && s@ == decode_utf8(bytes)
                } else {
                    r matches Err(e) && e matches ByteStyleError::FromUtf8
                }
            },
            None => r matches Err(e) && (e matches ByteStyleError::Parse(m) && m@
                == bad_remainder(input@)),
        },
{
    let words = match Words::parse_from_byte_style(input) {
        Ok(ws) => ws,
        Err(e) => {
            return Err(e);
        },
    };
    let bytes = words.to_bytes();
    match string_from_utf8(bytes) {
        Some(s) => Ok(s),
        None => Err(ByteStyleError::FromUtf8),
    }
}

/// Law: round trip over bytes. Replaying and repacking the symbols that any
/// byte buffer encodes to gives the buffer back exactly.
pub proof fn lemma_encode_decode_bytes(bytes: Seq<u8>)
    ensures
        bytes_of_bits(words_bits(encode_bits(bits_of_bytes(bytes)))) == bytes,
{
    let bits = bits_of_bytes(bytes);
    assert(bits.len() == bytes.len() * 8);
    words::lemma_encode_bits_reversible(bits);
    let out = words_bits(encode_bits(bits));
    bits::lemma_bytes_of_bits_ignores_tail(out);
    assert(out.len() / 8 == bytes.len() && 8 * (out.len() / 8) == bits.len())
        by (nonlinear_arith)
        requires
            bits.len() == bytes.len() * 8,
            bits.len() <= out.len() <= bits.len() + 1,
    ;
    assert(bytes_of_bits(out) == bytes_of_bits(out.take(bits.len() as int)));
    assert(bytes_of_bits(out) == bytes_of_bits(bits));
    bits::lemma_bytes_bits_round_trip(bytes);
}

/// Law: round trip over strings. For any text, the encoded code-word string
/// tokenizes back to the very symbols, those symbols repack to the text's
/// UTF-8 bytes, and those bytes read back as the text; so decoding an
/// encoded string returns the original input.
pub proof fn lemma_round_trip(s: Seq<char>)
    ensures
        ({
            let ws = encode_bits(bits_of_bytes(encode_utf8(s)));
            &&& tokenize(render(ws)) == Some(ws)
            &&& bytes_of_bits(words_bits(ws)) == encode_utf8(s)
            &&& valid_utf8(encode_utf8(s))
            &&& decode_utf8(encode_utf8(s)) == s
        }),
{
    let ws = encode_bits(bits_of_bytes(encode_utf8(s)));
    words::lemma_tokenize_render(ws);
    lemma_encode_decode_bytes(encode_utf8(s));
    vstd::utf8::encode_utf8_valid_utf8(s);
    vstd::utf8::encode_utf8_decode_utf8(s);
}

/// Law: both directions are functions of their input alone; the contracts of
/// `encode_to_byte_style` and `decode_from_byte_style` pin each result to a
/// spec-level function of the input's characters, so equal inputs give equal
/// results on every call.
pub proof fn lemma_deterministic(s1: Seq<char>, s2: Seq<char>)
    requires
        s1 == s2,
    ensures
        render(encode_bits(bits_of_bytes(encode_utf8(s1)))) == render(
            encode_bits(bits_of_bytes(encode_utf8(s2))),
        ),
        tokenize(s1) == tokenize(s2),
{
}

/// Law: the empty byte buffer encodes to the empty string, and the empty
/// string decodes to the empty byte buffer.
pub proof fn lemma_empty()
    ensures
        encode_utf8(Seq::<char>::empty()) == Seq::<u8>::empty(),
        render(encode_bits(bits_of_bytes(Seq::<u8>::empty()))) == Seq::<char>::empty(),
        tokenize(Seq::<char>::empty()) == Some(Seq::<Word>::empty()),
        bytes_of_bits(words_bits(Seq::<Word>::empty())) == Seq::<u8>::empty(),
{
    assert(encode_utf8(Seq::<char>::empty()) =~= Seq::<u8>::empty());
    assert(bits_of_bytes(Seq::<u8>::empty()) =~= Seq::<bool>::empty());
    assert(encode_bits(Seq::<bool>::empty()) == Seq::<Word>::empty());
    assert(bytes_of_bits(words_bits(Seq::<Word>::empty())) =~= Seq::<u8>::empty());
}

} // verus!

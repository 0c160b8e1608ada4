//! Decoding of message payloads into readings.
//!
//! A reading's value is a 32-bit IEEE-754 number. This module carries it as
//! its 32-bit pattern, so that every value, whichever it is, passes through
//! unchanged.

use vstd::prelude::*;
use vstd::utf8::*;
use crate::text::{same_bytes, text_of};

verus! {

/// Why a payload was not decoded.
#[derive(Clone, Copy, Debug, PartialEq, Eq, Structural)]
pub enum DecodeError {
    /// A binary payload that is not exactly four bytes long.
    MalformedBinary,
    /// A text payload that denotes no number.
    MalformedText,
    /// A text payload that is not well-formed UTF-8.
    Encoding,
}

/// How the payloads of a topic are encoded.
#[derive(Clone, Copy, Debug, PartialEq, Eq, Structural)]
pub enum Encoding {
    /// Four bytes, the big-endian bit pattern of the value.
    Binary,
    /// The value written out as text.
    Text,
}

/// The number that four bytes denote when read big-endian.
pub open spec fn be_value(bytes: Seq<u8>) -> int
    recommends
        bytes.len() == 4,
{
    bytes[0] * 0x100_0000 + bytes[1] * 0x1_0000 + bytes[2] * 0x100 + bytes[3]
}

/// The four bytes that denote `bits` big-endian.
pub open spec fn be_bytes(bits: u32) -> Seq<u8> {
    seq![
        (bits / 0x100_0000) as u8,
        (bits / 0x1_0000 % 0x100) as u8,
        (bits / 0x100 % 0x100) as u8,
        (bits % 0x100) as u8,
    ]
}

/// What a binary payload decodes to.
pub open spec fn binary_reading(payload: Seq<u8>) -> Result<u32, DecodeError> {
    if payload.len() == 4 {
        Ok(be_value(payload) as u32)
    } else {
        Err(DecodeError::MalformedBinary)
    }
}

/// The text `-Infinity`, which a sensor sends when it has measured nothing.
pub open spec fn no_measurement() -> Seq<u8> {
    seq![0x2du8, 0x49u8, 0x6eu8, 0x66u8, 0x69u8, 0x6eu8, 0x69u8, 0x74u8, 0x79u8]
}

/// What a text payload decodes to, given the number that its text denotes:
/// `number` is that number's bit pattern, or `None` where the text denotes no
/// number.
pub open spec fn text_reading(payload: Seq<u8>, number: Option<u32>) -> Result<u32, DecodeError> {
    if !valid_utf8(payload) {
        Err(DecodeError::Encoding)
    } else if payload == no_measurement() {
        Ok(0u32)
    } else {
        match number {
            Some(bits) => Ok(bits),
            None => Err(DecodeError::MalformedText),
        }
    }
}

/// What a payload decodes to under the given encoding.
pub open spec fn reading_of(encoding: Encoding, payload: Seq<u8>, number: Option<u32>) -> Result<
    u32,
    DecodeError,
> {
    match encoding {
        Encoding::Binary => binary_reading(payload),
        Encoding::Text => text_reading(payload, number),
    }
}

/// Whether a value is zero, of either sign.
pub open spec fn is_zero(bits: u32) -> bool {
    bits == 0 || bits == 0x8000_0000
}

/// Decodes a binary payload: exactly four bytes, read big-endian.
pub fn decode_binary(payload: &[u8]) -> (reading: Result<u32, DecodeError>)
    ensures
        reading == binary_reading(payload@),
{
    if payload.len() != 4 {
        return Err(DecodeError::MalformedBinary);
    }
    let b0: u32 = payload[0] as u32;
    let b1: u32 = payload[1] as u32;
    let b2: u32 = payload[2] as u32;
    let b3: u32 = payload[3] as u32;
    Ok(b0 * 0x100_0000 + b1 * 0x1_0000 + b2 * 0x100 + b3)
}

/// Encodes a value as the binary payload that decodes to it.
pub fn encode_binary(bits: u32) -> (payload: Vec<u8>)
    ensures
        payload@ == be_bytes(bits),
{
    let mut payload: Vec<u8> = Vec::new();
    payload.push((bits / 0x100_0000) as u8);
    payload.push((bits / 0x1_0000 % 0x100) as u8);
    payload.push((bits / 0x100 % 0x100) as u8);
    payload.push((bits % 0x100) as u8);
    assert(payload@ =~= be_bytes(bits));
    payload
}

/// Whether a payload is the text `-Infinity`.
pub fn is_no_measurement(payload: &[u8]) -> (found: bool)
    ensures
        found == (payload@ == no_measurement()),
{
    let marker: [u8; 9] = [0x2d, 0x49, 0x6e, 0x66, 0x69, 0x6e, 0x69, 0x74, 0x79];
    assert(marker@ =~= no_measurement());
    same_bytes(payload, marker.as_slice())
}

/// Decodes a text payload. Turning decimal text into a 32-bit number is
/// floating-point work that stands outside this library: the caller does it
/// and hands in the outcome as `number`, the bit pattern of the number that
/// the payload's text denotes, or `None` where it denotes none.
pub fn decode_text(payload: &[u8], number: Option<u32>) -> (reading: Result<u32, DecodeError>)
    ensures
        reading == text_reading(payload@, number),
{
    if text_of(payload).is_none() {
        return Err(DecodeError::Encoding);
    }
    if is_no_measurement(payload) {
        return Ok(0);
    }
    match number {
        Some(bits) => Ok(bits),
        None => Err(DecodeError::MalformedText),
    }
}

/// Decodes a payload under the given encoding. `number` is read for text
/// payloads only, as in [`decode_text`].
pub fn decode(encoding: Encoding, payload: &[u8], number: Option<u32>) -> (reading: Result<
    u32,
    DecodeError,
>)
    ensures
        reading == reading_of(encoding, payload@, number),
{
    match encoding {
        Encoding::Binary => decode_binary(payload),
        Encoding::Text => decode_text(payload, number),
    }
}

/// Whether a value is zero, of either sign.
pub fn value_is_zero(bits: u32) -> (zero: bool)
    ensures
        zero == is_zero(bits),
{
    bits == 0 || bits == 0x8000_0000
}

/// Encoding a value and decoding the payload gives the value back.
pub proof fn lemma_decode_encode(bits: u32)
    ensures
        binary_reading(be_bytes(bits)) == Ok::<u32, DecodeError>(bits),
{
    let n = bits as int;
    let q1 = n / 0x100;
    let q2 = q1 / 0x100;
    let q3 = q2 / 0x100;
    assert(n / 0x1_0000 == q2);
    assert(n / 0x100_0000 == q3);
    assert(0 <= q3 < 0x100);
    assert(n == q3 * 0x100_0000 + (q2 % 0x100) * 0x1_0000 + (q1 % 0x100) * 0x100 + n % 0x100);
    assert(be_bytes(bits).len() == 4);
}

/// Decoding a four-byte payload and encoding the value gives the payload back.
pub proof fn lemma_encode_decode(payload: Seq<u8>)
    requires
        payload.len() == 4,
    ensures
        binary_reading(payload) is Ok,
        be_bytes(binary_reading(payload)->Ok_0) == payload,
{
    let b0 = payload[0] as int;
    let b1 = payload[1] as int;
    let b2 = payload[2] as int;
    let b3 = payload[3] as int;
    let n = be_value(payload);
    assert(n == b0 * 0x100_0000 + b1 * 0x1_0000 + b2 * 0x100 + b3);
    assert(0 <= n < 0x1_0000_0000);
    assert(n % 0x100 == b3);
    assert(n / 0x100 == b0 * 0x1_0000 + b1 * 0x100 + b2);
    assert(n / 0x100 % 0x100 == b2);
    assert(n / 0x1_0000 == b0 * 0x100 + b1);
    assert(n / 0x1_0000 % 0x100 == b1);
    assert(n / 0x100_0000 == b0);
    assert(be_bytes(n as u32) =~= payload);
}

} // verus!

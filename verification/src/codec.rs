//! The wire format of values that cross the boundary, and its size limit.
//!
//! Values are written by `bincode` in its varint configuration. The functions
//! of this module say, byte for byte, what that format is for the records the
//! library carries, and cap the size of a payload in both directions.

use crate::bytes::{le_bytes, le_value, lemma_le_bytes_len, lemma_le_value_of_bytes, lemma_radix_values};
use crate::{A, B};
use bincode::Options;
use vstd::prelude::*;
use vstd::utf8::{decode_utf8, encode_utf8, encode_utf8_decode_utf8, encode_utf8_valid_utf8, valid_utf8};

verus! {

/// Why a value could not be encoded or decoded.
#[derive(Clone, Copy, Debug, PartialEq, Eq, Structural)]
pub enum CodecError {
    /// The bytes are not the encoding of a value: malformed, truncated, or
    /// followed by bytes that belong to nothing.
    DecodeError,
    /// The payload is larger than the configured limit.
    SizeLimitExceeded,
}

/// The settings that every codec call takes: the largest payload, in bytes.
#[derive(Clone, Copy, Debug, PartialEq, Eq, Structural)]
pub struct CodecConfig {
    pub limit: u64,
}

/// The limit of the default configuration: the largest length that the
/// header of a buffer can state.
pub const DEFAULT_LIMIT: u64 = 0xffff_ffff;

impl CodecConfig {
    /// A configuration that accepts payloads of up to `limit` bytes.
    pub fn new(limit: u64) -> (config: CodecConfig)
        ensures
            config.limit == limit,
    {
        CodecConfig { limit }
    }
}

impl CodecConfig {
    /// Whether a payload of `len` bytes is within the limit.
    pub fn admits(&self, len: usize) -> (admitted: bool)
        ensures
            admitted == (len <= self.limit),
    {
        len as u64 <= self.limit
    }
}

impl Default for CodecConfig {
    fn default() -> (config: CodecConfig)
        ensures
            config.limit == DEFAULT_LIMIT,
    {
        CodecConfig { limit: DEFAULT_LIMIT }
    }
}

/// The variable-length encoding of an unsigned integer: one byte up to 250,
/// else a marker byte and the value in 2, 4 or 8 little-endian bytes.
pub open spec fn varint(value: u64) -> Seq<u8> {
    if value <= 250 {
        seq![value as u8]
    } else if value <= 0xffff {
        seq![251u8] + le_bytes(value as nat, 2)
    } else if value <= 0xffff_ffff {
        seq![252u8] + le_bytes(value as nat, 4)
    } else {
        seq![253u8] + le_bytes(value as nat, 8)
    }
}

/// Reads one variable-length integer from the front of `bytes`: the value and
/// the number of bytes it took. A value in a wider form than it needs is
/// accepted; the markers 254 and 255 are not.
pub open spec fn parse_varint(bytes: Seq<u8>) -> Option<(u64, nat)> {
    if bytes.len() == 0 {
        None
    } else if bytes[0] <= 250 {
        Some((bytes[0] as u64, 1))
    } else if bytes[0] == 251 {
        if bytes.len() >= 3 {
            Some((le_value(bytes.subrange(1, 3)) as u64, 3))
        } else {
            None
        }
    } else if bytes[0] == 252 {
        if bytes.len() >= 5 {
            Some((le_value(bytes.subrange(1, 5)) as u64, 5))
        } else {
            None
        }
    } else if bytes[0] == 253 {
        if bytes.len() >= 9 {
            Some((le_value(bytes.subrange(1, 9)) as u64, 9))
        } else {
            None
        }
    } else {
        None
    }
}

/// A string on the wire: the length of its UTF-8 form, then that form.
pub open spec fn text_wire(text: Seq<char>) -> Seq<u8> {
    varint(encode_utf8(text).len() as u64) + encode_utf8(text)
}

/// Reads one string from the front of `bytes`: the string and the number of
/// bytes it took.
pub open spec fn parse_text(bytes: Seq<u8>) -> Option<(Seq<char>, nat)> {
    match parse_varint(bytes) {
        Some((len, used)) => {
            let end = used + len;
            if end <= bytes.len() && valid_utf8(bytes.subrange(used as int, end as int)) {
                Some((decode_utf8(bytes.subrange(used as int, end as int)), end as nat))
            } else {
                None
            }
        },
        None => None,
    }
}

/// Whether a string is short enough for its length to be written down.
pub open spec fn representable(text: Seq<char>) -> bool {
    encode_utf8(text).len() <= u64::MAX
}

/// An `A` on the wire: its fields in order.
pub open spec fn a_wire(test: Seq<char>, test2: u64) -> Seq<u8> {
    text_wire(test) + varint(test2)
}

/// The fields of the `A` that `bytes` encode, if they encode one and nothing
/// follows it.
pub open spec fn parse_a(bytes: Seq<u8>) -> Option<(Seq<char>, u64)> {
    match parse_text(bytes) {
        Some((test, used)) => match parse_varint(bytes.skip(used as int)) {
            Some((test2, more)) => if used + more == bytes.len() {
                Some((test, test2))
            } else {
                None
            },
            None => None,
        },
        None => None,
    }
}

/// A `B` on the wire: its fields in order.
pub open spec fn b_wire(test: Seq<char>, test2: Seq<char>) -> Seq<u8> {
    text_wire(test) + text_wire(test2)
}

/// The fields of the `B` that `bytes` encode, if they encode one and nothing
/// follows it.
pub open spec fn parse_b(bytes: Seq<u8>) -> Option<(Seq<char>, Seq<char>)> {
    match parse_text(bytes) {
        Some((test, used)) => match parse_text(bytes.skip(used as int)) {
            Some((test2, more)) => if used + more == bytes.len() {
                Some((test, test2))
            } else {
                None
            },
            None => None,
        },
        None => None,
    }
}

/// What encoding under a limit yields: the wire form, unless it is too long.
pub open spec fn encoded(wire: Seq<u8>, limit: u64) -> Result<Seq<u8>, CodecError> {
    if wire.len() <= limit {
        Ok(wire)
    } else {
        Err(CodecError::SizeLimitExceeded)
    }
}

/// What decoding under a limit yields, given what the bytes parse to.
pub open spec fn decoded<T>(len: nat, parsed: Option<T>, limit: u64) -> Result<T, CodecError> {
    if len > limit {
        Err(CodecError::SizeLimitExceeded)
    } else {
        match parsed {
            Some(value) => Ok(value),
            None => Err(CodecError::DecodeError),
        }
    }
}

/// An integer is read back from its encoding, whatever follows it.
pub proof fn lemma_parse_varint(value: u64, rest: Seq<u8>)
    ensures
        parse_varint(varint(value) + rest) == Some((value, varint(value).len())),
{
    let bytes = varint(value) + rest;
    lemma_radix_values();
    if value <= 250 {
    } else if value <= 0xffff {
        lemma_le_bytes_len(value as nat, 2);
        assert(bytes.subrange(1, 3) =~= le_bytes(value as nat, 2));
        lemma_le_value_of_bytes(value as nat, 2);
    } else if value <= 0xffff_ffff {
        lemma_le_bytes_len(value as nat, 4);
        assert(bytes.subrange(1, 5) =~= le_bytes(value as nat, 4));
        lemma_le_value_of_bytes(value as nat, 4);
    } else {
        lemma_le_bytes_len(value as nat, 8);
        assert(bytes.subrange(1, 9) =~= le_bytes(value as nat, 8));
        lemma_le_value_of_bytes(value as nat, 8);
    }
}

/// A string is read back from its encoding, whatever follows it.
pub proof fn lemma_parse_text(text: Seq<char>, rest: Seq<u8>)
    requires
        representable(text),
    ensures
        parse_text(text_wire(text) + rest) == Some((text, text_wire(text).len())),
{
    let body = encode_utf8(text);
    let head = varint(body.len() as u64);
    let bytes = text_wire(text) + rest;
    assert(bytes =~= head + (body + rest));
    lemma_parse_varint(body.len() as u64, body + rest);
    assert(bytes.subrange(head.len() as int, (head.len() + body.len()) as int) =~= body);
    encode_utf8_valid_utf8(text);
    encode_utf8_decode_utf8(text);
}

/// Decoding inverts encoding: the bytes of an `A` parse to its fields.
pub proof fn lemma_a_round_trip(test: Seq<char>, test2: u64)
    requires
        representable(test),
    ensures
        parse_a(a_wire(test, test2)) == Some((test, test2)),
{
    let bytes = a_wire(test, test2);
    let used = text_wire(test).len();
    lemma_parse_text(test, varint(test2));
    assert(bytes.skip(used as int) =~= varint(test2));
    lemma_parse_varint(test2, Seq::empty());
    assert(varint(test2) + Seq::<u8>::empty() =~= varint(test2));
}

/// Decoding inverts encoding: the bytes of a `B` parse to its fields.
pub proof fn lemma_b_round_trip(test: Seq<char>, test2: Seq<char>)
    requires
        representable(test),
        representable(test2),
    ensures
        parse_b(b_wire(test, test2)) == Some((test, test2)),
{
    let bytes = b_wire(test, test2);
    let used = text_wire(test).len();
    lemma_parse_text(test, text_wire(test2));
    assert(bytes.skip(used as int) =~= text_wire(test2));
    lemma_parse_text(test2, Seq::empty());
    assert(text_wire(test2) + Seq::<u8>::empty() =~= text_wire(test2));
}

/// Whatever encodes within a limit decodes, within the same limit, to the
/// value that was encoded.
pub proof fn lemma_a_decode_encode(test: Seq<char>, test2: u64, limit: u64)
    requires
        representable(test),
    ensures
        encoded(a_wire(test, test2), limit) matches Ok(bytes) ==> decoded(
            bytes.len(),
            parse_a(bytes),
            limit,
        ) == Ok::<(Seq<char>, u64), CodecError>((test, test2)),
{
    lemma_a_round_trip(test, test2);
}

/// Whatever encodes within a limit decodes, within the same limit, to the
/// value that was encoded.
pub proof fn lemma_b_decode_encode(test: Seq<char>, test2: Seq<char>, limit: u64)
    requires
        representable(test),
        representable(test2),
    ensures
        encoded(b_wire(test, test2), limit) matches Ok(bytes) ==> decoded(
            bytes.len(),
            parse_b(bytes),
            limit,
        ) == Ok::<(Seq<char>, Seq<char>), CodecError>((test, test2)),
{
    lemma_b_round_trip(test, test2);
}

/// `bincode`'s `Options::serialize`, with its default options and a byte
/// limit, on a pair of a string and a `u64`. The contract claims that the
/// call fails exactly when the encoding is longer than the limit, and that it
/// otherwise returns the string's length as a varint, the string's UTF-8
/// bytes, and the number as a varint.
#[verifier::external_body]
fn bincode_serialize_text_number(test: &str, test2: u64, limit: u64) -> (r: Option<Vec<u8>>)
    ensures
        r is Some <==> a_wire(test@, test2).len() <= limit,
        r matches Some(bytes) ==> bytes@ == a_wire(test@, test2),
{
    bincode::DefaultOptions::new().with_limit(limit).serialize(&(test, test2)).ok()
}

/// `bincode`'s `Options::serialize`, with its default options and a byte
/// limit, on a pair of strings. The contract claims that the call fails
/// exactly when the encoding is longer than the limit, and that it otherwise
/// returns, for each string in turn, its length as a varint and its UTF-8
/// bytes.
#[verifier::external_body]
fn bincode_serialize_text_text(test: &str, test2: &str, limit: u64) -> (r: Option<Vec<u8>>)
    ensures
        r is Some <==> b_wire(test@, test2@).len() <= limit,
        r matches Some(bytes) ==> bytes@ == b_wire(test@, test2@),
{
    bincode::DefaultOptions::new().with_limit(limit).serialize(&(test, test2)).ok()
}

/// `bincode`'s `Options::deserialize`, with its default options, from a slice
/// into a pair of a string and a `u64`. The contract claims that the call
/// succeeds exactly on the inputs that `parse_a` accepts, with that result:
/// it reads a string, then a varint, and rejects input that is truncated, is
/// not UTF-8 where the string stands, or has bytes left over.
#[verifier::external_body]
fn bincode_deserialize_text_number(bytes: &[u8]) -> (r: Option<(String, u64)>)
    ensures
        r is Some <==> parse_a(bytes@) is Some,
        r matches Some(pair) ==> parse_a(bytes@) == Some((pair.0@, pair.1)),
{
    bincode::DefaultOptions::new().deserialize::<(String, u64)>(bytes).ok()
}

/// `bincode`'s `Options::deserialize`, with its default options, from a slice
/// into a pair of strings. The contract claims that the call succeeds exactly
/// on the inputs that `parse_b` accepts, with that result: it reads two
/// strings, and rejects input that is truncated, is not UTF-8 where a string
/// stands, or has bytes left over.
#[verifier::external_body]
fn bincode_deserialize_text_text(bytes: &[u8]) -> (r: Option<(String, String)>)
    ensures
        r is Some <==> parse_b(bytes@) is Some,
        r matches Some(pair) ==> parse_b(bytes@) == Some((pair.0@, pair.1@)),
{
    bincode::DefaultOptions::new().deserialize::<(String, String)>(bytes).ok()
}

impl A {
    /// The bytes of this value on the wire.
    pub open spec fn wire(&self) -> Seq<u8> {
        a_wire(self.test@, self.test2)
    }

    /// Encodes this value, unless its encoding is longer than the limit.
    pub fn into_bytes(&self, config: &CodecConfig) -> (r: Result<Vec<u8>, CodecError>)
        ensures
            match r {
                Ok(bytes) => encoded(self.wire(), config.limit) == Ok::<Seq<u8>, CodecError>(
                    bytes@,
                ),
                Err(e) => encoded(self.wire(), config.limit) == Err::<Seq<u8>, CodecError>(e),
            },
    {
        match bincode_serialize_text_number(self.test.as_str(), self.test2, config.limit) {
            Some(bytes) => Ok(bytes),
            None => Err(CodecError::SizeLimitExceeded),
        }
    }

    /// Decodes a value from exactly `bytes`, unless they are more than the
    /// limit allows or are not the encoding of a value.
    pub fn from_bytes(bytes: &[u8], config: &CodecConfig) -> (r: Result<A, CodecError>)
        ensures
            match r {
                Ok(a) => decoded(bytes@.len(), parse_a(bytes@), config.limit) == Ok::<
                    (Seq<char>, u64),
                    CodecError,
                >((a.test@, a.test2)),
                Err(e) => decoded(bytes@.len(), parse_a(bytes@), config.limit) == Err::<
                    (Seq<char>, u64),
                    CodecError,
                >(e),
            },
    {
        if !config.admits(bytes.len()) {
            return Err(CodecError::SizeLimitExceeded);
        }
        match bincode_deserialize_text_number(bytes) {
            Some(pair) => Ok(A { test: pair.0, test2: pair.1 }),
            None => Err(CodecError::DecodeError),
        }
    }
}

impl B {
    /// The bytes of this value on the wire.
    pub open spec fn wire(&self) -> Seq<u8> {
        b_wire(self.test@, self.test2@)
    }

    /// Encodes this value, unless its encoding is longer than the limit.
    pub fn into_bytes(&self, config: &CodecConfig) -> (r: Result<Vec<u8>, CodecError>)
        ensures
            match r {
                Ok(bytes) => encoded(self.wire(), config.limit) == Ok::<Seq<u8>, CodecError>(
                    bytes@,
                ),
                Err(e) => encoded(self.wire(), config.limit) == Err::<Seq<u8>, CodecError>(e),
            },
    {
        match bincode_serialize_text_text(self.test.as_str(), self.test2.as_str(), config.limit) {
            Some(bytes) => Ok(bytes),
            None => Err(CodecError::SizeLimitExceeded),
        }
    }

    /// Decodes a value from exactly `bytes`, unless they are more than the
    /// limit allows or are not the encoding of a value.
    pub fn from_bytes(bytes: &[u8], config: &CodecConfig) -> (r: Result<B, CodecError>)
        ensures
            match r {
                Ok(b) => decoded(bytes@.len(), parse_b(bytes@), config.limit) == Ok::<
                    (Seq<char>, Seq<char>),
                    CodecError,
                >((b.test@, b.test2@)),
                Err(e) => decoded(bytes@.len(), parse_b(bytes@), config.limit) == Err::<
                    (Seq<char>, Seq<char>),
                    CodecError,
                >(e),
            },
    {
        if !config.admits(bytes.len()) {
            return Err(CodecError::SizeLimitExceeded);
        }
        match bincode_deserialize_text_text(bytes) {
            Some(pair) => Ok(B { test: pair.0, test2: pair.1 }),
            None => Err(CodecError::DecodeError),
        }
    }
}

} // verus!

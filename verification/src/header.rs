//! The fixed twelve-byte message header: a sixteen-bit identifier, a
//! sixteen-bit flag field (query/response bit, four-bit operation code,
//! authoritative, truncated, recursion-desired and recursion-available bits,
//! three reserved bits, four-bit response code), and four sixteen-bit record
//! counts.

use vstd::prelude::*;

use crate::bytes::{be16_at, be16_bytes, lemma_be16_bytes_of, push_u16, read_u16};
use crate::errors::DecodeError;

verus! {

/// The sub-fields of the flag word, each named for the bits it occupies.
#[derive(Clone, Copy, Debug)]
pub enum FlagBits {
    QueryResponse,
    OperationCode,
    Truncated,
    Authoritative,
    RecursionDesired,
    RecursionAvailable,
    Reserved,
    ResponseCode,
}

/// The mask of the bits a sub-field occupies in the flag word.
pub open spec fn spec_mask(bits: FlagBits) -> u16 {
    match bits {
        FlagBits::QueryResponse => 0x8000,
        FlagBits::OperationCode => 0x7800,
        FlagBits::Truncated => 0x0400,
        FlagBits::Authoritative => 0x0200,
        FlagBits::RecursionDesired => 0x0100,
        FlagBits::RecursionAvailable => 0x0080,
        FlagBits::Reserved => 0x0070,
        FlagBits::ResponseCode => 0x000f,
    }
}

/// Whether every bit of `mask` is set in `f`.
pub open spec fn flag_set(f: u16, mask: u16) -> bool {
    f & mask == mask
}

/// The response bit of a flag word.
pub open spec fn spec_is_response(f: u16) -> bool {
    flag_set(f, 0x8000)
}

/// The four-bit operation code of a flag word.
pub open spec fn spec_operation_code(f: u16) -> u8 {
    ((f & 0x7800) >> 11) as u8
}

/// The authoritative bit of a flag word.
pub open spec fn spec_is_authoritative(f: u16) -> bool {
    flag_set(f, 0x0200)
}

/// The truncated bit of a flag word.
pub open spec fn spec_is_truncated(f: u16) -> bool {
    flag_set(f, 0x0400)
}

/// The recursion-desired bit of a flag word.
pub open spec fn spec_is_recursion_desired(f: u16) -> bool {
    flag_set(f, 0x0100)
}

/// The recursion-available bit of a flag word.
pub open spec fn spec_is_recursion_available(f: u16) -> bool {
    flag_set(f, 0x0080)
}

/// The four-bit response code of a flag word.
pub open spec fn spec_response_code(f: u16) -> u8 {
    (f & 0x000f) as u8
}

/// The sixteen-bit flag word of a header, composed by or-ing field
/// contributions together.
#[derive(Clone, Copy, Debug, PartialEq, Eq, Structural)]
pub struct Flags(u16);

impl View for Flags {
    type V = u16;

    closed spec fn view(&self) -> u16 {
        self.0
    }
}

impl Flags {
    /// A flag word with no bit set.
    pub fn none() -> (r: Flags)
        ensures
            r@ == 0u16,
    {
        Flags(0)
    }

    /// The flag contribution of a query: no bit set.
    pub fn query() -> (r: Flags)
        ensures
            r@ == 0u16,
    {
        Flags(0)
    }

    /// The flag contribution of a response: the response bit.
    pub fn response() -> (r: Flags)
        ensures
            r@ == 0x8000u16,
    {
        Flags(0x8000)
    }

    /// The flag contribution of an authoritative answer.
    pub fn authoritative() -> (r: Flags)
        ensures
            r@ == 0x0200u16,
    {
        Flags(0x0200)
    }

    /// The flag contribution of a truncated message.
    pub fn truncated() -> (r: Flags)
        ensures
            r@ == 0x0400u16,
    {
        Flags(0x0400)
    }

    /// The flag contribution of recursion being available.
    pub fn recursion_available() -> (r: Flags)
        ensures
            r@ == 0x0080u16,
    {
        Flags(0x0080)
    }

    /// The recursion-desired bit, or nothing, by `value`.
    pub fn recursion_desired(value: bool) -> (r: Flags)
        ensures
            r@ == (if value {
                0x0100u16
            } else {
                0u16
            }),
    {
        if value {
            Flags(0x0100)
        } else {
            Flags(0)
        }
    }

    /// The flag contribution of a response code: its bits in the low nibble.
    pub fn from_response_code(code: u8) -> (r: Flags)
        ensures
            r@ == code as u16,
    {
        Flags(code as u16)
    }

    /// The flag contribution of an operation code: its bits shifted into the
    /// operation-code field.
    pub fn from_operation_code(code: u8) -> (r: Flags)
        ensures
            r@ == (code as u16) << 11,
    {
        Flags((code as u16) << 11)
    }

    /// The word with the bits of both flag words.
    pub fn or(self, other: Flags) -> (r: Flags)
        ensures
            r@ == self@ | other@,
    {
        Flags(self.0 | other.0)
    }

    /// The raw sixteen-bit flag word.
    pub fn word(&self) -> (r: u16)
        ensures
            r == self@,
    {
        self.0
    }

    /// Whether every bit of the named sub-field is set.
    pub fn is_set(&self, flags: FlagBits) -> (r: bool)
        ensures
            r == flag_set(self@, spec_mask(flags)),
    {
        let mask: u16 = match flags {
            FlagBits::QueryResponse => 0x8000,
            FlagBits::OperationCode => 0x7800,
            FlagBits::Truncated => 0x0400,
            FlagBits::Authoritative => 0x0200,
            FlagBits::RecursionDesired => 0x0100,
            FlagBits::RecursionAvailable => 0x0080,
            FlagBits::Reserved => 0x0070,
            FlagBits::ResponseCode => 0x000f,
        };
        self.0 & mask == mask
    }

    /// Whether the response bit is clear.
    pub fn is_query(&self) -> (r: bool)
        ensures
            r == !spec_is_response(self@),
    {
        !self.is_set(FlagBits::QueryResponse)
    }

    /// Whether the response bit is set.
    pub fn is_response(&self) -> (r: bool)
        ensures
            r == spec_is_response(self@),
    {
        self.is_set(FlagBits::QueryResponse)
    }

    /// Whether the authoritative bit is set.
    pub fn is_authoritative(&self) -> (r: bool)
        ensures
            r == spec_is_authoritative(self@),
    {
        self.is_set(FlagBits::Authoritative)
    }

    /// Whether the truncated bit is set.
    pub fn is_truncated(&self) -> (r: bool)
        ensures
            r == spec_is_truncated(self@),
    {
        self.is_set(FlagBits::Truncated)
    }

    /// Whether the recursion-desired bit is set.
    pub fn is_recursion_desired(&self) -> (r: bool)
        ensures
            r == spec_is_recursion_desired(self@),
    {
        self.is_set(FlagBits::RecursionDesired)
    }

    /// Whether the recursion-available bit is set.
    pub fn is_recursion_available(&self) -> (r: bool)
        ensures
            r == spec_is_recursion_available(self@),
    {
        self.is_set(FlagBits::RecursionAvailable)
    }

    /// The four-bit response code.
    pub fn response_code(&self) -> (r: u8)
        ensures
            r == spec_response_code(self@),
    {
        let f = self.0;
        assert(f & 0x000f < 256) by (bit_vector);
        (f & 0x000f) as u8
    }

    /// The four-bit operation code.
    pub fn operation_code(&self) -> (r: u8)
        ensures
            r == spec_operation_code(self@),
    {
        let f = self.0;
        assert((f & 0x7800) >> 11 < 256) by (bit_vector);
        ((f & 0x7800) >> 11) as u8
    }
}

/// An operation code below sixteen travels through the flag word untouched,
/// and its contribution holds no other sub-field's bits.
pub proof fn lemma_operation_code_exact(code: u8)
    requires
        code < 16,
    ensures
        spec_operation_code((code as u16) << 11) == code,
        !spec_is_response((code as u16) << 11),
        !spec_is_authoritative((code as u16) << 11),
        !spec_is_truncated((code as u16) << 11),
        !spec_is_recursion_desired((code as u16) << 11),
        !spec_is_recursion_available((code as u16) << 11),
        spec_response_code((code as u16) << 11) == 0,
{
    assert((((code as u16) << 11) & 0x7800) >> 11 == code as u16 && (((code as u16) << 11)
        & 0x8000) != 0x8000 && (((code as u16) << 11) & 0x0200) != 0x0200 && (((code as u16) << 11)
        & 0x0400) != 0x0400 && (((code as u16) << 11) & 0x0100) != 0x0100 && (((code as u16) << 11)
        & 0x0080) != 0x0080 && (((code as u16) << 11) & 0x000f) == 0) by (bit_vector)
        requires
            code < 16,
    ;
}

/// Or-ing an operation code below sixteen into a flag word leaves every
/// other sub-field as it was; where the word's own operation-code bits are
/// clear, the field then reads back exactly that code.
pub proof fn lemma_operation_code_isolation(f: u16, code: u8)
    requires
        code < 16,
    ensures
        spec_is_response(f | ((code as u16) << 11)) == spec_is_response(f),
        spec_is_authoritative(f | ((code as u16) << 11)) == spec_is_authoritative(f),
        spec_is_truncated(f | ((code as u16) << 11)) == spec_is_truncated(f),
        spec_is_recursion_desired(f | ((code as u16) << 11)) == spec_is_recursion_desired(f),
        spec_is_recursion_available(f | ((code as u16) << 11)) == spec_is_recursion_available(f),
        spec_response_code(f | ((code as u16) << 11)) == spec_response_code(f),
        f & 0x7800 == 0 ==> spec_operation_code(f | ((code as u16) << 11)) == code,
{
    let g = f | ((code as u16) << 11);
    assert((g & 0x8000 == 0x8000) == (f & 0x8000 == 0x8000) && (g & 0x0200 == 0x0200) == (f & 0x0200
        == 0x0200) && (g & 0x0400 == 0x0400) == (f & 0x0400 == 0x0400) && (g & 0x0100 == 0x0100) == (
    f & 0x0100 == 0x0100) && (g & 0x0080 == 0x0080) == (f & 0x0080 == 0x0080) && g & 0x000f == f
        & 0x000f && (f & 0x7800 == 0 ==> (g & 0x7800) >> 11 == code as u16)) by (bit_vector)
        requires
            g == f | ((code as u16) << 11),
            code < 16,
    ;
}

/// A response code below sixteen travels through the flag word untouched,
/// and its contribution holds no other sub-field's bits; or-ing it into a
/// word leaves every other sub-field as it was.
pub proof fn lemma_response_code_isolation(f: u16, code: u8)
    requires
        code < 16,
    ensures
        spec_response_code(code as u16) == code,
        spec_operation_code(code as u16) == 0,
        !spec_is_response(code as u16),
        spec_is_response(f | (code as u16)) == spec_is_response(f),
        spec_is_authoritative(f | (code as u16)) == spec_is_authoritative(f),
        spec_is_truncated(f | (code as u16)) == spec_is_truncated(f),
        spec_is_recursion_desired(f | (code as u16)) == spec_is_recursion_desired(f),
        spec_is_recursion_available(f | (code as u16)) == spec_is_recursion_available(f),
        spec_operation_code(f | (code as u16)) == spec_operation_code(f),
        f & 0x000f == 0 ==> spec_response_code(f | (code as u16)) == code,
{
    let g = f | (code as u16);
    assert((code as u16) & 0x000f == code as u16 && ((code as u16) & 0x7800) >> 11 == 0 && (
    code as u16) & 0x8000 != 0x8000 && (g & 0x8000 == 0x8000) == (f & 0x8000 == 0x8000) && (g
        & 0x0200 == 0x0200) == (f & 0x0200 == 0x0200) && (g & 0x0400 == 0x0400) == (f & 0x0400
        == 0x0400) && (g & 0x0100 == 0x0100) == (f & 0x0100 == 0x0100) && (g & 0x0080 == 0x0080) == (
    f & 0x0080 == 0x0080) && (g & 0x7800) >> 11 == (f & 0x7800) >> 11 && (f & 0x000f == 0 ==> g
        & 0x000f == code as u16)) by (bit_vector)
        requires
            g == f | (code as u16),
            code < 16,
    ;
}

/// The plain fields a header holds, with the flag word as its sixteen bits.
pub struct HeaderModel {
    pub id: u16,
    pub flags: u16,
    pub question_count: u16,
    pub answer_record_count: u16,
    pub authority_record_count: u16,
    pub additional_record_count: u16,
}

/// The twelve bytes of a header: each field big-endian, in order.
pub open spec fn spec_encode_header(h: HeaderModel) -> Seq<u8> {
    be16_bytes(h.id) + be16_bytes(h.flags) + be16_bytes(h.question_count) + be16_bytes(
        h.answer_record_count,
    ) + be16_bytes(h.authority_record_count) + be16_bytes(h.additional_record_count)
}

/// What decoding a header from the front of `b` yields: the six fields read
/// big-endian from the first twelve bytes, or a truncation fault where
/// fewer than twelve bytes are there.
pub open spec fn spec_decode_header(b: Seq<u8>) -> Result<HeaderModel, DecodeError> {
    if b.len() < 12 {
        Err(DecodeError::TruncatedBuffer)
    } else {
        Ok(
            HeaderModel {
                id: be16_at(b, 0),
                flags: be16_at(b, 2),
                question_count: be16_at(b, 4),
                answer_record_count: be16_at(b, 6),
                authority_record_count: be16_at(b, 8),
                additional_record_count: be16_at(b, 10),
            },
        )
    }
}

/// The raw bytes a header was read from or encoded to.
#[derive(Clone, Debug)]
pub struct HeaderBuffer(pub Vec<u8>);

/// A decoded header: the identifier, the flag word, and the four record
/// counts.
#[derive(Clone, Copy, Debug, PartialEq, Eq, Structural)]
pub struct HeaderProperties {
    pub id: u16,
    pub flags: Flags,
    pub question_count: u16,
    pub answer_record_count: u16,
    pub authority_record_count: u16,
    pub additional_record_count: u16,
}

impl View for HeaderProperties {
    type V = HeaderModel;

    open spec fn view(&self) -> HeaderModel {
        HeaderModel {
            id: self.id,
            flags: self.flags@,
            question_count: self.question_count,
            answer_record_count: self.answer_record_count,
            authority_record_count: self.authority_record_count,
            additional_record_count: self.additional_record_count,
        }
    }
}

impl HeaderProperties {
    /// Decodes the header held in the first twelve bytes of `buffer`.
    pub fn from_buffer(buffer: &HeaderBuffer) -> (r: Result<HeaderProperties, DecodeError>)
        ensures
            ({
                let s = spec_decode_header(buffer.0@);
                match r {
                    Ok(h) => s == Ok::<HeaderModel, DecodeError>(h@),
                    Err(e) => s == Err::<HeaderModel, DecodeError>(e),
                }
            }),
    {
        Self::parse(buffer.0.as_slice())
    }

    /// Decodes the header held in the first twelve bytes of `b`.
    pub fn parse(b: &[u8]) -> (r: Result<HeaderProperties, DecodeError>)
        ensures
            ({
                let s = spec_decode_header(b@);
                match r {
                    Ok(h) => s == Ok::<HeaderModel, DecodeError>(h@),
                    Err(e) => s == Err::<HeaderModel, DecodeError>(e),
                }
            }),
    {
        if b.len() < 12 {
            return Err(DecodeError::TruncatedBuffer);
        }
        let id = match read_u16(b, 0) {
            Ok(x) => x,
            Err(e) => {
                return Err(e);
            },
        };
        let flags = match read_u16(b, 2) {
            Ok(x) => x,
            Err(e) => {
                return Err(e);
            },
        };
        let question_count = match read_u16(b, 4) {
            Ok(x) => x,
            Err(e) => {
                return Err(e);
            },
        };
        let answer_record_count = match read_u16(b, 6) {
            Ok(x) => x,
            Err(e) => {
                return Err(e);
            },
        };
        let authority_record_count = match read_u16(b, 8) {
            Ok(x) => x,
            Err(e) => {
                return Err(e);
            },
        };
        let additional_record_count = match read_u16(b, 10) {
            Ok(x) => x,
            Err(e) => {
                return Err(e);
            },
        };
        Ok(
            HeaderProperties {
                id,
                flags: Flags(flags),
                question_count,
                answer_record_count,
                authority_record_count,
                additional_record_count,
            },
        )
    }

    /// Encodes the header as its twelve wire bytes.
    pub fn to_bytes(&self) -> (r: Vec<u8>)
        ensures
            r@ == spec_encode_header(self@),
    {
        let mut buffer: Vec<u8> = Vec::new();
        push_u16(&mut buffer, self.id);
        push_u16(&mut buffer, self.flags.word());
        push_u16(&mut buffer, self.question_count);
        push_u16(&mut buffer, self.answer_record_count);
        push_u16(&mut buffer, self.authority_record_count);
        push_u16(&mut buffer, self.additional_record_count);
        assert(buffer@ =~= spec_encode_header(self@));
        buffer
    }

    /// How many bytes the encoded header occupies: always twelve.
    pub fn size_of(&self) -> (r: usize)
        ensures
            r == spec_encode_header(self@).len(),
    {
        12
    }

    /// Whether the flag word's response bit is clear.
    pub fn is_query(&self) -> (r: bool)
        ensures
            r == !spec_is_response(self.flags@),
    {
        self.flags.is_query()
    }

    /// Whether the flag word's response bit is set.
    pub fn is_response(&self) -> (r: bool)
        ensures
            r == spec_is_response(self.flags@),
    {
        self.flags.is_response()
    }

    /// Whether the flag word's authoritative bit is set.
    pub fn is_authoritative(&self) -> (r: bool)
        ensures
            r == spec_is_authoritative(self.flags@),
    {
        self.flags.is_authoritative()
    }

    /// Whether the flag word's truncated bit is set.
    pub fn is_truncated(&self) -> (r: bool)
        ensures
            r == spec_is_truncated(self.flags@),
    {
        self.flags.is_truncated()
    }

    /// Whether the flag word's recursion-desired bit is set.
    pub fn is_recursion_desired(&self) -> (r: bool)
        ensures
            r == spec_is_recursion_desired(self.flags@),
    {
        self.flags.is_recursion_desired()
    }

    /// Whether the flag word's recursion-available bit is set.
    pub fn is_recursion_available(&self) -> (r: bool)
        ensures
            r == spec_is_recursion_available(self.flags@),
    {
        self.flags.is_recursion_available()
    }

    /// The flag word's four-bit response code.
    pub fn response_code(&self) -> (r: u8)
        ensures
            r == spec_response_code(self.flags@),
    {
        self.flags.response_code()
    }

    /// The flag word's four-bit operation code.
    pub fn operation_code(&self) -> (r: u8)
        ensures
            r == spec_operation_code(self.flags@),
    {
        self.flags.operation_code()
    }
}

impl HeaderBuffer {
    /// The buffer's raw bytes.
    pub fn into_bytes(self) -> (r: Vec<u8>)
        ensures
            r@ == self.0@,
    {
        self.0
    }

    /// Encodes a header into a fresh buffer of its twelve wire bytes.
    pub fn from_properties(properties: &HeaderProperties) -> (r: HeaderBuffer)
        ensures
            r.0@ == spec_encode_header(properties@),
    {
        HeaderBuffer(properties.to_bytes())
    }
}

/// Wherever the twelve encoded bytes of a header open a buffer, decoding the
/// buffer's header yields the header back, whatever follows.
pub proof fn lemma_decode_header_prefix(b: Seq<u8>, h: HeaderModel)
    requires
        b.len() >= 12,
        b.subrange(0, 12) == spec_encode_header(h),
    ensures
        spec_decode_header(b) == Ok::<HeaderModel, DecodeError>(h),
{
    let e = spec_encode_header(h);
    assert forall|j: int| 0 <= j < 12 implies #[trigger] b[j] == e[j] by {
        assert(b.subrange(0, 12)[j] == b[j]);
    }
    lemma_be16_bytes_of((h.id / 256) as u8, (h.id % 256) as u8);
    assert(be16_at(b, 0) == h.id) by {
        assert(b[0] == (h.id / 256) as u8 && b[1] == (h.id % 256) as u8);
        crate::bytes::lemma_be16_roundtrip(h.id);
    }
    assert(be16_at(b, 2) == h.flags) by {
        assert(b[2] == (h.flags / 256) as u8 && b[3] == (h.flags % 256) as u8);
        crate::bytes::lemma_be16_roundtrip(h.flags);
    }
    assert(be16_at(b, 4) == h.question_count) by {
        assert(b[4] == (h.question_count / 256) as u8 && b[5] == (h.question_count % 256) as u8);
        crate::bytes::lemma_be16_roundtrip(h.question_count);
    }
    assert(be16_at(b, 6) == h.answer_record_count) by {
        assert(b[6] == (h.answer_record_count / 256) as u8 && b[7] == (h.answer_record_count
            % 256) as u8);
        crate::bytes::lemma_be16_roundtrip(h.answer_record_count);
    }
    assert(be16_at(b, 8) == h.authority_record_count) by {
        assert(b[8] == (h.authority_record_count / 256) as u8 && b[9] == (h.authority_record_count
            % 256) as u8);
        crate::bytes::lemma_be16_roundtrip(h.authority_record_count);
    }
    assert(be16_at(b, 10) == h.additional_record_count) by {
        assert(b[10] == (h.additional_record_count / 256) as u8 && b[11]
            == (h.additional_record_count % 256) as u8);
        crate::bytes::lemma_be16_roundtrip(h.additional_record_count);
    }
}

/// Decoding the twelve encoded bytes of a header gives the header back.
pub proof fn lemma_header_roundtrip(h: HeaderModel)
    ensures
        spec_decode_header(spec_encode_header(h)) == Ok::<HeaderModel, DecodeError>(h),
{
    let e = spec_encode_header(h);
    assert(e.len() == 12);
    assert(e.subrange(0, 12) =~= e);
    lemma_decode_header_prefix(e, h);
}

} // verus!

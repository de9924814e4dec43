//! Question records: a domain name followed by two-byte type and class
//! fields. The trailing fields are read at the offset the name decode
//! returns, which is what lets compressed names compose inside a message.

use vstd::prelude::*;

use crate::bytes::{be16_at, be16_bytes, lemma_be16_bytes_of, lemma_be16_roundtrip, push_u16,
    read_u16};
use crate::domain_name::{encode_name, lemma_decode_encoded, name_wf, spec_decode_name, DomainName};
use crate::enums::{RecordClass, RecordType};
use crate::errors::DecodeError;

verus! {

/// The plain fields a question holds: the name's labels and the two codes.
#[verifier::ext_equal]
pub struct QuestionModel {
    pub name: Seq<Seq<char>>,
    pub record_type: u16,
    pub record_class: u16,
}

/// The wire bytes of a question: the encoded name, then type and class
/// big-endian.
pub open spec fn spec_encode_question(q: QuestionModel) -> Seq<u8> {
    encode_name(q.name) + be16_bytes(q.record_type) + be16_bytes(q.record_class)
}

/// What decoding a question at `off` yields: the name (following at most one
/// compression pointer), then type and class read at the offset the name
/// decode returned, and the offset just past them.
pub open spec fn spec_decode_question(b: Seq<u8>, off: int) -> Result<
    (QuestionModel, int),
    DecodeError,
> {
    match spec_decode_name(b, off, 1) {
        Err(e) => Err(e),
        Ok((name, end)) => if end + 4 > b.len() {
            Err(DecodeError::TruncatedBuffer)
        } else {
            Ok(
                (
                    QuestionModel {
                        name,
                        record_type: be16_at(b, end),
                        record_class: be16_at(b, end + 2),
                    },
                    end + 4,
                ),
            )
        },
    }
}

/// The raw bytes a question was read from, and the offset it starts at.
#[derive(Clone, Debug)]
pub struct QuestionBuffer(pub Vec<u8>, pub usize);

/// A decoded question record.
#[derive(Clone, Debug, PartialEq, Eq)]
pub struct QuestionProperties {
    pub domain_name: DomainName,
    pub record_type: RecordType,
    pub record_class: RecordClass,
}

impl View for QuestionProperties {
    type V = QuestionModel;

    open spec fn view(&self) -> QuestionModel {
        QuestionModel {
            name: self.domain_name@,
            record_type: self.record_type.0,
            record_class: self.record_class.0,
        }
    }
}

impl QuestionProperties {
    /// A name the encoder is owed to handle.
    pub open spec fn wf(&self) -> bool {
        name_wf(self@.name)
    }

    /// Decodes the question starting at `offset` of `b`, returning it with
    /// the offset just past its class field.
    pub fn parse(b: &[u8], offset: usize) -> (r: Result<(QuestionProperties, usize), DecodeError>)
        ensures
            ({
                let s = spec_decode_question(b@, offset as int);
                match r {
                    Ok((q, end)) => s == Ok::<(QuestionModel, int), DecodeError>((q@, end as int)),
                    Err(e) => s == Err::<(QuestionModel, int), DecodeError>(e),
                }
            }),
            r matches Ok(p) ==> offset < p.1 <= b@.len(),
    {
        let (domain_name, end) = match DomainName::from_bytes(b, offset) {
            Ok(p) => p,
            Err(e) => {
                return Err(e);
            },
        };
        if b.len() - end < 4 {
            return Err(DecodeError::TruncatedBuffer);
        }
        let record_type = match read_u16(b, end) {
            Ok(x) => x,
            Err(e) => {
                return Err(e);
            },
        };
        let record_class = match read_u16(b, end + 2) {
            Ok(x) => x,
            Err(e) => {
                return Err(e);
            },
        };
        Ok(
            (
                QuestionProperties {
                    domain_name,
                    record_type: RecordType(record_type),
                    record_class: RecordClass(record_class),
                },
                end + 4,
            ),
        )
    }

    /// Decodes the question starting at the buffer's offset, returning it
    /// with the offset just past its class field.
    pub fn from_buffer(buffer: &QuestionBuffer) -> (r: Result<
        (QuestionProperties, usize),
        DecodeError,
    >)
        ensures
            ({
                let s = spec_decode_question(buffer.0@, buffer.1 as int);
                match r {
                    Ok((q, end)) => s == Ok::<(QuestionModel, int), DecodeError>((q@, end as int)),
                    Err(e) => s == Err::<(QuestionModel, int), DecodeError>(e),
                }
            }),
    {
        Self::parse(buffer.0.as_slice(), buffer.1)
    }

    /// Encodes the question as its wire bytes: the full name, then type and
    /// class.
    pub fn to_bytes(&self) -> (r: Vec<u8>)
        requires
            self.wf(),
        ensures
            r@ == spec_encode_question(self@),
    {
        let mut buffer = self.domain_name.to_bytes();
        push_u16(&mut buffer, self.record_type.0);
        push_u16(&mut buffer, self.record_class.0);
        assert(buffer@ =~= spec_encode_question(self@));
        buffer
    }

    /// How many bytes the encoded question occupies: the name plus four.
    pub fn size_of(&self) -> (r: usize)
        requires
            self.wf(),
            spec_encode_question(self@).len() <= usize::MAX,
        ensures
            r == spec_encode_question(self@).len(),
    {
        self.domain_name.size_of() + 4
    }
}

impl QuestionBuffer {
    /// The buffer's bytes from its offset on.
    pub fn into_bytes(self) -> (r: Vec<u8>)
        requires
            self.1 <= self.0@.len(),
        ensures
            r@ == self.0@.subrange(self.1 as int, self.0@.len() as int),
    {
        vstd::slice::slice_to_vec(
            vstd::slice::slice_subrange(self.0.as_slice(), self.1, self.0.len()),
        )
    }

    /// Encodes a question into a fresh buffer starting at offset zero.
    pub fn from_properties(properties: &QuestionProperties) -> (r: QuestionBuffer)
        requires
            properties.wf(),
        ensures
            r.0@ == spec_encode_question(properties@),
            r.1 == 0,
    {
        QuestionBuffer(properties.to_bytes(), 0)
    }
}

/// Wherever the encoding of a well-formed question lies in a buffer,
/// decoding at its start yields exactly that question and stops just past
/// its class field, whatever else the buffer holds.
pub proof fn lemma_decode_question_encoded(b: Seq<u8>, off: int, q: QuestionModel)
    requires
        name_wf(q.name),
        0 <= off,
        off + spec_encode_question(q).len() <= b.len(),
        b.subrange(off, off + spec_encode_question(q).len()) == spec_encode_question(q),
    ensures
        spec_decode_question(b, off) == Ok::<(QuestionModel, int), DecodeError>(
            (q, off + spec_encode_question(q).len()),
        ),
{
    let e = spec_encode_question(q);
    let en = encode_name(q.name);
    let n = e.len() as int;
    assert forall|j: int| 0 <= j < n implies #[trigger] b[off + j] == e[j] by {
        assert(b.subrange(off, off + n)[j] == b[off + j]);
    }
    assert(b.subrange(off, off + en.len() as int) =~= en);
    lemma_decode_encoded(b, off, q.name, 1);
    let end = off + en.len() as int;
    assert(be16_at(b, end) == q.record_type) by {
        lemma_be16_bytes_of((q.record_type / 256) as u8, (q.record_type % 256) as u8);
        lemma_be16_roundtrip(q.record_type);
        assert(b[end] == e[en.len() as int] && b[end + 1] == e[en.len() as int + 1]);
    }
    assert(be16_at(b, end + 2) == q.record_class) by {
        lemma_be16_bytes_of((q.record_class / 256) as u8, (q.record_class % 256) as u8);
        lemma_be16_roundtrip(q.record_class);
        assert(b[end + 2] == e[en.len() as int + 2] && b[end + 3] == e[en.len() as int + 3]);
    }
    let dq = spec_decode_question(b, off);
    assert(dq matches Ok(p) && p.0 =~= q && p.1 == off + n);
}

/// Decoding the encoding of a well-formed question gives the question back,
/// with the whole encoding consumed.
pub proof fn lemma_question_roundtrip(q: QuestionModel)
    requires
        name_wf(q.name),
    ensures
        spec_decode_question(spec_encode_question(q), 0) == Ok::<(QuestionModel, int), DecodeError>(
            (q, spec_encode_question(q).len() as int),
        ),
{
    let e = spec_encode_question(q);
    assert(e.subrange(0, e.len() as int) =~= e);
    lemma_decode_question_encoded(e, 0, q);
}

} // verus!

//! Answer records: a domain name, two-byte type and class, a four-byte time
//! to live, a two-byte data length, and that many bytes of data. The data
//! length is written from the data itself at encode time and read as an
//! explicit field at decode time.

use vstd::prelude::*;

use crate::bytes::{be16_at, be16_bytes, be32_at, be32_bytes, lemma_be16_bytes_of,
    lemma_be16_roundtrip, lemma_be32_bytes_of, lemma_be32_roundtrip, push_u16, push_u32, read_u16,
    read_u32};
use crate::domain_name::{encode_name, lemma_decode_encoded, name_wf, spec_decode_name, DomainName};
use crate::enums::{RecordClass, RecordType};
use crate::errors::DecodeError;

verus! {

/// The plain fields an answer holds: the name's labels, the two codes, the
/// time to live, and the data bytes.
#[verifier::ext_equal]
pub struct AnswerModel {
    pub name: Seq<Seq<char>>,
    pub record_type: u16,
    pub record_class: u16,
    pub time_to_live: u32,
    pub data: Seq<u8>,
}

/// An answer the encoder is owed to handle: a well-formed name, and data
/// whose length fits the two-byte length field.
pub open spec fn answer_wf(a: AnswerModel) -> bool {
    &&& name_wf(a.name)
    &&& a.data.len() <= 0xffff
}

/// The wire bytes of an answer: the encoded name, type, class, time to
/// live, the data's length, then the data.
pub open spec fn spec_encode_answer(a: AnswerModel) -> Seq<u8> {
    encode_name(a.name) + be16_bytes(a.record_type) + be16_bytes(a.record_class) + be32_bytes(
        a.time_to_live,
    ) + be16_bytes(a.data.len() as u16) + a.data
}

/// What decoding an answer at `off` yields: the name (following at most one
/// compression pointer), the fixed fields read at the offset the name decode
/// returned, as many data bytes as the length field declares, and the offset
/// just past the data.
pub open spec fn spec_decode_answer(b: Seq<u8>, off: int) -> Result<
    (AnswerModel, int),
    DecodeError,
> {
    match spec_decode_name(b, off, 1) {
        Err(e) => Err(e),
        Ok((name, end)) => if end + 10 > b.len() {
            Err(DecodeError::TruncatedBuffer)
        } else {
            let dlen = be16_at(b, end + 8) as int;
            if end + 10 + dlen > b.len() {
                Err(DecodeError::TruncatedBuffer)
            } else {
                Ok(
                    (
                        AnswerModel {
                            name,
                            record_type: be16_at(b, end),
                            record_class: be16_at(b, end + 2),
                            time_to_live: be32_at(b, end + 4),
                            data: b.subrange(end + 10, end + 10 + dlen),
                        },
                        end + 10 + dlen,
                    ),
                )
            }
        },
    }
}

/// The raw bytes an answer was read from, and the offset it starts at.
#[derive(Clone, Debug)]
pub struct AnswerBuffer(pub Vec<u8>, pub usize);

/// A decoded answer record.
#[derive(Clone, Debug, PartialEq, Eq)]
pub struct AnswerProperties {
    pub domain_name: DomainName,
    pub record_type: RecordType,
    pub record_class: RecordClass,
    pub time_to_live: u32,
    pub data: Vec<u8>,
}

impl View for AnswerProperties {
    type V = AnswerModel;

    open spec fn view(&self) -> AnswerModel {
        AnswerModel {
            name: self.domain_name@,
            record_type: self.record_type.0,
            record_class: self.record_class.0,
            time_to_live: self.time_to_live,
            data: self.data@,
        }
    }
}

impl AnswerProperties {
    /// A record the encoder is owed to handle.
    pub open spec fn wf(&self) -> bool {
        answer_wf(self@)
    }

    /// Decodes the answer starting at `offset` of `b`, returning it with the
    /// offset just past its data.
    pub fn parse(b: &[u8], offset: usize) -> (r: Result<(AnswerProperties, usize), DecodeError>)
        ensures
            ({
                let s = spec_decode_answer(b@, offset as int);
                match r {
                    Ok((a, end)) => s == Ok::<(AnswerModel, int), DecodeError>((a@, end as int)),
                    Err(e) => s == Err::<(AnswerModel, int), DecodeError>(e),
                }
            }),
            r matches Ok(p) ==> offset < p.1 <= b@.len(),
    {
        let (domain_name, end) = match DomainName::from_bytes(b, offset) {
            Ok(p) => p,
            Err(e) => {
                return Err(e);
            },
        };
        if b.len() - end < 10 {
            return Err(DecodeError::TruncatedBuffer);
        }
        let record_type = match read_u16(b, end) {
            Ok(x) => x,
            Err(e) => {
                return Err(e);
            },
        };
        let record_class = match read_u16(b, end + 2) {
            Ok(x) => x,
            Err(e) => {
                return Err(e);
            },
        };
        let time_to_live = match read_u32(b, end + 4) {
            Ok(x) => x,
            Err(e) => {
                return Err(e);
            },
        };
        let data_length = match read_u16(b, end + 8) {
            Ok(x) => x,
            Err(e) => {
                return Err(e);
            },
        };
        if (data_length as usize) > b.len() - (end + 10) {
            return Err(DecodeError::TruncatedBuffer);
        }
        let data_start = end + 10;
        let data = vstd::slice::slice_to_vec(
            vstd::slice::slice_subrange(b, data_start, data_start + data_length as usize),
        );
        Ok(
            (
                AnswerProperties {
                    domain_name,
                    record_type: RecordType(record_type),
                    record_class: RecordClass(record_class),
                    time_to_live,
                    data,
                },
                data_start + data_length as usize,
            ),
        )
    }

    /// Decodes the answer starting at the buffer's offset, returning it with
    /// the offset just past its data.
    pub fn from_buffer(buffer: &AnswerBuffer) -> (r: Result<
        (AnswerProperties, usize),
        DecodeError,
    >)
        ensures
            ({
                let s = spec_decode_answer(buffer.0@, buffer.1 as int);
                match r {
                    Ok((a, end)) => s == Ok::<(AnswerModel, int), DecodeError>((a@, end as int)),
                    Err(e) => s == Err::<(AnswerModel, int), DecodeError>(e),
                }
            }),
    {
        Self::parse(buffer.0.as_slice(), buffer.1)
    }

    /// Encodes the answer as its wire bytes: the full name, the fixed
    /// fields, the data's length, then the data.
    #[verifier::loop_isolation(false)]
    pub fn to_bytes(&self) -> (r: Vec<u8>)
        requires
            self.wf(),
        ensures
            r@ == spec_encode_answer(self@),
    {
        let mut buffer = self.domain_name.to_bytes();
        push_u16(&mut buffer, self.record_type.0);
        push_u16(&mut buffer, self.record_class.0);
        push_u32(&mut buffer, self.time_to_live);
        push_u16(&mut buffer, self.data.len() as u16);
        let ghost head = buffer@;
        let mut j: usize = 0;
        while j < self.data.len()
            invariant
                j <= self.data@.len(),
                buffer@ == head + self.data@.take(j as int),
            decreases self.data@.len() - j,
        {
            buffer.push(self.data[j]);
            assert(buffer@ =~= head + self.data@.take(j as int + 1));
            j += 1;
        }
        assert(self.data@.take(self.data@.len() as int) =~= self.data@);
        assert(buffer@ =~= spec_encode_answer(self@));
        buffer
    }

    /// How many bytes the encoded answer occupies: the name, ten bytes of
    /// fixed fields, and the data.
    pub fn size_of(&self) -> (r: usize)
        requires
            self.wf(),
            spec_encode_answer(self@).len() <= usize::MAX,
        ensures
            r == spec_encode_answer(self@).len(),
    {
        self.domain_name.size_of() + 10 + self.data.len()
    }
}

impl AnswerBuffer {
    /// The buffer's bytes from its offset on.
    pub fn into_bytes(self) -> (r: Vec<u8>)
        requires
            self.1 <= self.0@.len(),
        ensures
            r@ == self.0@.subrange(self.1 as int, self.0@.len() as int),
    {
        vstd::slice::slice_to_vec(
            vstd::slice::slice_subrange(self.0.as_slice(), self.1, self.0.len()),
        )
    }

    /// Encodes an answer into a fresh buffer starting at offset zero.
    pub fn from_properties(properties: &AnswerProperties) -> (r: AnswerBuffer)
        requires
            properties.wf(),
        ensures
            r.0@ == spec_encode_answer(properties@),
            r.1 == 0,
    {
        AnswerBuffer(properties.to_bytes(), 0)
    }
}

/// Wherever the encoding of a well-formed answer lies in a buffer, decoding
/// at its start yields exactly that answer and stops just past its data,
/// whatever else the buffer holds.
pub proof fn lemma_decode_answer_encoded(b: Seq<u8>, off: int, a: AnswerModel)
    requires
        answer_wf(a),
        0 <= off,
        off + spec_encode_answer(a).len() <= b.len(),
        b.subrange(off, off + spec_encode_answer(a).len()) == spec_encode_answer(a),
    ensures
        spec_decode_answer(b, off) == Ok::<(AnswerModel, int), DecodeError>(
            (a, off + spec_encode_answer(a).len()),
        ),
{
    let e = spec_encode_answer(a);
    let en = encode_name(a.name);
    let nl = en.len() as int;
    let n = e.len() as int;
    assert forall|j: int| 0 <= j < n implies #[trigger] b[off + j] == e[j] by {
        assert(b.subrange(off, off + n)[j] == b[off + j]);
    }
    assert(b.subrange(off, off + nl) =~= en);
    lemma_decode_encoded(b, off, a.name, 1);
    let end = off + nl;
    assert(be16_at(b, end) == a.record_type) by {
        lemma_be16_bytes_of((a.record_type / 256) as u8, (a.record_type % 256) as u8);
        lemma_be16_roundtrip(a.record_type);
        assert(b[end] == e[nl] && b[end + 1] == e[nl + 1]);
    }
    assert(be16_at(b, end + 2) == a.record_class) by {
        lemma_be16_bytes_of((a.record_class / 256) as u8, (a.record_class % 256) as u8);
        lemma_be16_roundtrip(a.record_class);
        assert(b[end + 2] == e[nl + 2] && b[end + 3] == e[nl + 3]);
    }
    assert(be32_at(b, end + 4) == a.time_to_live) by {
        lemma_be32_bytes_of(
            (a.time_to_live / 0x1000000) as u8,
            ((a.time_to_live / 0x10000) % 256) as u8,
            ((a.time_to_live / 256) % 256) as u8,
            (a.time_to_live % 256) as u8,
        );
        lemma_be32_roundtrip(a.time_to_live);
        assert(b[end + 4] == e[nl + 4] && b[end + 5] == e[nl + 5] && b[end + 6] == e[nl + 6] && b[
            end + 7] == e[nl + 7]);
    }
    let dlen16 = a.data.len() as u16;
    assert(be16_at(b, end + 8) == dlen16) by {
        lemma_be16_bytes_of((dlen16 / 256) as u8, (dlen16 % 256) as u8);
        lemma_be16_roundtrip(dlen16);
        assert(b[end + 8] == e[nl + 8] && b[end + 9] == e[nl + 9]);
    }
    let dlen = dlen16 as int;
    assert(dlen == a.data.len());
    assert(b.subrange(end + 10, end + 10 + dlen) =~= a.data) by {
        assert forall|j: int| 0 <= j < dlen implies #[trigger] b.subrange(
            end + 10,
            end + 10 + dlen,
        )[j] == a.data[j] by {
            assert(b[end + 10 + j] == e[nl + 10 + j]);
            assert(e[nl + 10 + j] == a.data[j]);
        }
    }
    let da = spec_decode_answer(b, off);
    assert(da matches Ok(p) && p.0 =~= a && p.1 == off + n);
}

/// Decoding the encoding of a well-formed answer gives the answer back,
/// with the whole encoding consumed.
pub proof fn lemma_answer_roundtrip(a: AnswerModel)
    requires
        answer_wf(a),
    ensures
        spec_decode_answer(spec_encode_answer(a), 0) == Ok::<(AnswerModel, int), DecodeError>(
            (a, spec_encode_answer(a).len() as int),
        ),
{
    let e = spec_encode_answer(a);
    assert(e.subrange(0, e.len() as int) =~= e);
    lemma_decode_answer_encoded(e, 0, a);
}

} // verus!

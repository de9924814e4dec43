//! Whole messages: the header, then as many questions and answers as its
//! counts declare. Decoding resumes each record at the offset the previous
//! record's decode returned; encoding concatenates the records in order and
//! never emits compression pointers.

use vstd::prelude::*;

use crate::answer::{answer_wf, lemma_decode_answer_encoded, spec_decode_answer,
    spec_encode_answer, AnswerModel, AnswerProperties};
use crate::domain_name::name_wf;
use crate::errors::DecodeError;
use crate::header::{lemma_decode_header_prefix, spec_decode_header, spec_encode_header,
    HeaderBuffer, HeaderModel, HeaderProperties};
use crate::question::{lemma_decode_question_encoded, spec_decode_question, spec_encode_question,
    QuestionModel, QuestionProperties};

verus! {

/// The plain shape a message holds: its header and its record sequences.
#[verifier::ext_equal]
pub struct MessageModel {
    pub header: HeaderModel,
    pub questions: Seq<QuestionModel>,
    pub answers: Seq<AnswerModel>,
}

/// A message the encoder is owed to handle: the header's counts match the
/// record sequences, and every record is well-formed.
pub open spec fn message_wf(m: MessageModel) -> bool {
    &&& m.header.question_count == m.questions.len()
    &&& m.header.answer_record_count == m.answers.len()
    &&& forall|i: int| 0 <= i < m.questions.len() ==> name_wf(#[trigger] m.questions[i].name)
    &&& forall|i: int| 0 <= i < m.answers.len() ==> answer_wf(#[trigger] m.answers[i])
}

/// The wire bytes of a question sequence: each record's bytes in order.
pub open spec fn encode_questions(qs: Seq<QuestionModel>) -> Seq<u8>
    decreases qs.len(),
{
    if qs.len() == 0 {
        Seq::empty()
    } else {
        spec_encode_question(qs[0]) + encode_questions(qs.drop_first())
    }
}

/// The wire bytes of an answer sequence: each record's bytes in order.
pub open spec fn encode_answers(ans: Seq<AnswerModel>) -> Seq<u8>
    decreases ans.len(),
{
    if ans.len() == 0 {
        Seq::empty()
    } else {
        spec_encode_answer(ans[0]) + encode_answers(ans.drop_first())
    }
}

/// The wire bytes of a whole message: the header, the questions, then the
/// answers.
pub open spec fn spec_encode_message(m: MessageModel) -> Seq<u8> {
    spec_encode_header(m.header) + encode_questions(m.questions) + encode_answers(m.answers)
}

/// What decoding `n` questions from `off` yields: the records in order and
/// the offset just past the last, each read where the previous one ended.
pub open spec fn spec_decode_questions(b: Seq<u8>, off: int, n: nat) -> Result<
    (Seq<QuestionModel>, int),
    DecodeError,
>
    decreases n,
{
    if n == 0 {
        Ok((seq![], off))
    } else {
        match spec_decode_question(b, off) {
            Err(e) => Err(e),
            Ok((q, off2)) => match spec_decode_questions(b, off2, (n - 1) as nat) {
                Err(e) => Err(e),
                Ok((qs, end)) => Ok((seq![q] + qs, end)),
            },
        }
    }
}

/// What decoding `n` answers from `off` yields: the records in order and
/// the offset just past the last, each read where the previous one ended.
pub open spec fn spec_decode_answers(b: Seq<u8>, off: int, n: nat) -> Result<
    (Seq<AnswerModel>, int),
    DecodeError,
>
    decreases n,
{
    if n == 0 {
        Ok((seq![], off))
    } else {
        match spec_decode_answer(b, off) {
            Err(e) => Err(e),
            Ok((a, off2)) => match spec_decode_answers(b, off2, (n - 1) as nat) {
                Err(e) => Err(e),
                Ok((ans, end)) => Ok((seq![a] + ans, end)),
            },
        }
    }
}

/// What decoding a whole message yields: the header from the first twelve
/// bytes, then as many questions and answers as its counts declare; bytes
/// past the last answer are ignored.
pub open spec fn spec_decode_message(b: Seq<u8>) -> Result<MessageModel, DecodeError> {
    match spec_decode_header(b) {
        Err(e) => Err(e),
        Ok(h) => match spec_decode_questions(b, 12, h.question_count as nat) {
            Err(e) => Err(e),
            Ok((qs, off)) => match spec_decode_answers(b, off, h.answer_record_count as nat) {
                Err(e) => Err(e),
                Ok((ans, _)) => Ok(MessageModel { header: h, questions: qs, answers: ans }),
            },
        },
    }
}

/// The models of a sequence of question records.
pub open spec fn questions_view(v: Seq<QuestionProperties>) -> Seq<QuestionModel> {
    Seq::new(v.len(), |i: int| v[i]@)
}

/// The models of a sequence of answer records.
pub open spec fn answers_view(v: Seq<AnswerProperties>) -> Seq<AnswerModel> {
    Seq::new(v.len(), |i: int| v[i]@)
}

/// The raw bytes a message was read from or encoded to.
#[derive(Clone, Debug)]
pub struct MessageBuffer(pub Vec<u8>);

/// A decoded message: the header and the records its counts declared.
#[derive(Clone, Debug, PartialEq, Eq)]
pub struct MessageProperties {
    pub header: HeaderProperties,
    pub questions: Vec<QuestionProperties>,
    pub answers: Vec<AnswerProperties>,
}

impl View for MessageProperties {
    type V = MessageModel;

    open spec fn view(&self) -> MessageModel {
        MessageModel {
            header: self.header@,
            questions: questions_view(self.questions@),
            answers: answers_view(self.answers@),
        }
    }
}

impl MessageProperties {
    /// A message the encoder is owed to handle.
    pub open spec fn wf(&self) -> bool {
        message_wf(self@)
    }

    /// Decodes the whole message held in `buffer`.
    pub fn from_buffer(buffer: &MessageBuffer) -> (r: Result<MessageProperties, DecodeError>)
        ensures
            ({
                let s = spec_decode_message(buffer.0@);
                match r {
                    Ok(m) => s == Ok::<MessageModel, DecodeError>(m@),
                    Err(e) => s == Err::<MessageModel, DecodeError>(e),
                }
            }),
    {
        Self::parse(buffer.0.as_slice())
    }

    /// Decodes the whole message held in `b`.
    #[verifier::loop_isolation(false)]
    pub fn parse(b: &[u8]) -> (r: Result<MessageProperties, DecodeError>)
        ensures
            ({
                let s = spec_decode_message(b@);
                match r {
                    Ok(m) => s == Ok::<MessageModel, DecodeError>(m@),
                    Err(e) => s == Err::<MessageModel, DecodeError>(e),
                }
            }),
    {
        let header = match HeaderProperties::parse(b) {
            Ok(h) => h,
            Err(e) => {
                return Err(e);
            },
        };
        let nq = header.question_count as usize;
        let na = header.answer_record_count as usize;
        let ghost sq = spec_decode_questions(b@, 12, nq as nat);
        let mut offset: usize = 12;
        let mut questions: Vec<QuestionProperties> = Vec::new();
        let mut i: usize = 0;
        proof {
            assert(questions_view(questions@) =~= Seq::<QuestionModel>::empty());
        }
        while i < nq
            invariant
                i <= nq,
                offset <= b@.len(),
                questions_view(questions@).len() == i,
                sq == match spec_decode_questions(b@, offset as int, (nq - i) as nat) {
                    Ok((qs, end)) => Ok::<(Seq<QuestionModel>, int), DecodeError>(
                        (questions_view(questions@) + qs, end),
                    ),
                    Err(e) => Err::<(Seq<QuestionModel>, int), DecodeError>(e),
                },
            decreases nq - i,
        {
            match QuestionProperties::parse(b, offset) {
                Ok((q, end)) => {
                    proof {
                        let n = (nq - i) as nat;
                        assert(spec_decode_question(b@, offset as int)
                            == Ok::<(QuestionModel, int), DecodeError>((q@, end as int)));
                        let qs_rest = spec_decode_questions(b@, end as int, (n - 1) as nat);
                        assert(spec_decode_questions(b@, offset as int, n) == match qs_rest {
                            Ok((qs, e2)) => Ok::<(Seq<QuestionModel>, int), DecodeError>(
                                (seq![q@] + qs, e2),
                            ),
                            Err(e) => Err::<(Seq<QuestionModel>, int), DecodeError>(e),
                        });
                        assert((n - 1) as nat == (nq - (i + 1)) as nat);
                        let pushed = questions@ + seq![q];
                        assert(questions@.push(q) =~= pushed);
                        assert(questions_view(pushed) =~= questions_view(questions@) + seq![q@]);
                        match qs_rest {
                            Ok((qs, e2)) => {
                                assert(questions_view(pushed) + qs =~= questions_view(questions@)
                                    + (seq![q@] + qs));
                                assert(sq == Ok::<(Seq<QuestionModel>, int), DecodeError>(
                                    (questions_view(pushed) + qs, e2),
                                ));
                            },
                            Err(e) => {
                                assert(sq == Err::<(Seq<QuestionModel>, int), DecodeError>(e));
                            },
                        }
                    }
                    questions.push(q);
                    offset = end;
                },
                Err(e) => {
                    return Err(e);
                },
            }
            i += 1;
        }
        assert(sq == Ok::<(Seq<QuestionModel>, int), DecodeError>(
            (questions_view(questions@), offset as int),
        )) by {
            assert(questions_view(questions@) + Seq::<QuestionModel>::empty() =~= questions_view(
                questions@,
            ));
        }
        let ghost sa = spec_decode_answers(b@, offset as int, na as nat);
        let mut answers: Vec<AnswerProperties> = Vec::new();
        let mut j: usize = 0;
        proof {
            assert(answers_view(answers@) =~= Seq::<AnswerModel>::empty());
        }
        while j < na
            invariant
                j <= na,
                offset <= b@.len(),
                answers_view(answers@).len() == j,
                sa == match spec_decode_answers(b@, offset as int, (na - j) as nat) {
                    Ok((ans, end)) => Ok::<(Seq<AnswerModel>, int), DecodeError>(
                        (answers_view(answers@) + ans, end),
                    ),
                    Err(e) => Err::<(Seq<AnswerModel>, int), DecodeError>(e),
                },
            decreases na - j,
        {
            match AnswerProperties::parse(b, offset) {
                Ok((a, end)) => {
                    proof {
                        let n = (na - j) as nat;
                        assert(spec_decode_answer(b@, offset as int) == Ok::<
                            (AnswerModel, int),
                            DecodeError,
                        >((a@, end as int)));
                        let as_rest = spec_decode_answers(b@, end as int, (n - 1) as nat);
                        assert(spec_decode_answers(b@, offset as int, n) == match as_rest {
                            Ok((ans, e2)) => Ok::<(Seq<AnswerModel>, int), DecodeError>(
                                (seq![a@] + ans, e2),
                            ),
                            Err(e) => Err::<(Seq<AnswerModel>, int), DecodeError>(e),
                        });
                        assert((n - 1) as nat == (na - (j + 1)) as nat);
                        let pushed = answers@ + seq![a];
                        assert(answers@.push(a) =~= pushed);
                        assert(answers_view(pushed) =~= answers_view(answers@) + seq![a@]);
                        match as_rest {
                            Ok((ans, e2)) => {
                                assert(answers_view(pushed) + ans =~= answers_view(answers@) + (
                                seq![a@] + ans));
                                assert(sa == Ok::<(Seq<AnswerModel>, int), DecodeError>(
                                    (answers_view(pushed) + ans, e2),
                                ));
                            },
                            Err(e) => {
                                assert(sa == Err::<(Seq<AnswerModel>, int), DecodeError>(e));
                            },
                        }
                    }
                    answers.push(a);
                    offset = end;
                },
                Err(e) => {
                    return Err(e);
                },
            }
            j += 1;
        }
        assert(sa == Ok::<(Seq<AnswerModel>, int), DecodeError>(
            (answers_view(answers@), offset as int),
        )) by {
            assert(answers_view(answers@) + Seq::<AnswerModel>::empty() =~= answers_view(answers@));
        }
        Ok(MessageProperties { header, questions, answers })
    }

    /// Encodes the whole message: the header's bytes, then each question's,
    /// then each answer's, in order.
    #[verifier::loop_isolation(false)]
    pub fn to_bytes(&self) -> (r: Vec<u8>)
        requires
            self.wf(),
        ensures
            r@ == spec_encode_message(self@),
    {
        let mut buffer = self.header.to_bytes();
        let ghost qs = self@.questions;
        let nq = self.questions.len();
        let mut i: usize = 0;
        proof {
            assert(qs.take(0) =~= Seq::<QuestionModel>::empty());
        }
        while i < nq
            invariant
                i <= nq,
                buffer@ == spec_encode_header(self@.header) + encode_questions(
                    qs.take(i as int),
                ),
            decreases nq - i,
        {
            assert(self.questions@[i as int]@ == qs[i as int]);
            let mut qb = self.questions[i].to_bytes();
            buffer.append(&mut qb);
            proof {
                lemma_encode_questions_take_succ(qs, i as int);
            }
            assert(buffer@ =~= spec_encode_header(self@.header) + encode_questions(
                qs.take(i as int + 1),
            ));
            i += 1;
        }
        assert(qs.take(nq as int) =~= qs);
        let ghost ans = self@.answers;
        let na = self.answers.len();
        let mut j: usize = 0;
        proof {
            assert(ans.take(0) =~= Seq::<AnswerModel>::empty());
        }
        while j < na
            invariant
                j <= na,
                buffer@ == spec_encode_header(self@.header) + encode_questions(qs) + encode_answers(
                    ans.take(j as int),
                ),
            decreases na - j,
        {
            assert(self.answers@[j as int]@ == ans[j as int]);
            let mut ab = self.answers[j].to_bytes();
            buffer.append(&mut ab);
            proof {
                lemma_encode_answers_take_succ(ans, j as int);
            }
            assert(buffer@ =~= spec_encode_header(self@.header) + encode_questions(qs)
                + encode_answers(ans.take(j as int + 1)));
            j += 1;
        }
        assert(ans.take(na as int) =~= ans);
        assert(buffer@ =~= spec_encode_message(self@));
        buffer
    }

    /// How many bytes the encoded message occupies: the header's twelve plus
    /// every record's size.
    #[verifier::loop_isolation(false)]
    pub fn size_of(&self) -> (r: usize)
        requires
            self.wf(),
            spec_encode_message(self@).len() <= usize::MAX,
        ensures
            r == spec_encode_message(self@).len(),
    {
        let ghost qs = self@.questions;
        let ghost ans = self@.answers;
        let mut total: usize = self.header.size_of();
        let nq = self.questions.len();
        let mut i: usize = 0;
        proof {
            assert(qs.take(0) =~= Seq::<QuestionModel>::empty());
        }
        while i < nq
            invariant
                i <= nq,
                total == 12 + encode_questions(qs.take(i as int)).len(),
            decreases nq - i,
        {
            assert(self.questions@[i as int]@ == qs[i as int]);
            proof {
                lemma_encode_questions_take_succ(qs, i as int);
                lemma_encode_questions_take_le(qs, i as int + 1);
                lemma_encode_message_len_parts(self@);
            }
            let q_size = self.questions[i].size_of();
            total = total + q_size;
            i += 1;
        }
        assert(qs.take(nq as int) =~= qs);
        let na = self.answers.len();
        let mut j: usize = 0;
        proof {
            assert(ans.take(0) =~= Seq::<AnswerModel>::empty());
        }
        while j < na
            invariant
                j <= na,
                total == 12 + encode_questions(qs).len() + encode_answers(ans.take(j as int)).len(),
            decreases na - j,
        {
            assert(self.answers@[j as int]@ == ans[j as int]);
            proof {
                lemma_encode_answers_take_succ(ans, j as int);
                lemma_encode_answers_take_le(ans, j as int + 1);
                lemma_encode_message_len_parts(self@);
            }
            let a_size = self.answers[j].size_of();
            total = total + a_size;
            j += 1;
        }
        assert(ans.take(na as int) =~= ans);
        total
    }
}

impl MessageBuffer {
    /// The buffer's raw bytes.
    pub fn into_bytes(self) -> (r: Vec<u8>)
        ensures
            r@ == self.0@,
    {
        self.0
    }

    /// Encodes a message into a fresh buffer.
    pub fn from_properties(properties: &MessageProperties) -> (r: MessageBuffer)
        requires
            properties.wf(),
        ensures
            r.0@ == spec_encode_message(properties@),
    {
        MessageBuffer(properties.to_bytes())
    }

    /// Decodes the whole message held in this buffer.
    pub fn to_properties(&self) -> (r: Result<MessageProperties, DecodeError>)
        ensures
            ({
                let s = spec_decode_message(self.0@);
                match r {
                    Ok(m) => s == Ok::<MessageModel, DecodeError>(m@),
                    Err(e) => s == Err::<MessageModel, DecodeError>(e),
                }
            }),
    {
        MessageProperties::parse(self.0.as_slice())
    }
}

/// Appending one question extends the encoded sequence by that question's
/// bytes.
pub proof fn lemma_encode_questions_take_succ(qs: Seq<QuestionModel>, i: int)
    requires
        0 <= i < qs.len(),
    ensures
        encode_questions(qs.take(i + 1)) == encode_questions(qs.take(i)) + spec_encode_question(
            qs[i],
        ),
    decreases i,
{
    if i == 0 {
        assert(qs.take(0) =~= Seq::<QuestionModel>::empty());
        assert(qs.take(1).drop_first() =~= Seq::<QuestionModel>::empty());
        assert(encode_questions(qs.take(1)) =~= encode_questions(qs.take(0)) + spec_encode_question(
            qs[0],
        ));
    } else {
        lemma_encode_questions_take_succ(qs.drop_first(), i - 1);
        assert(qs.take(i + 1).drop_first() =~= qs.drop_first().take(i));
        assert(qs.take(i).drop_first() =~= qs.drop_first().take(i - 1));
        assert(encode_questions(qs.take(i + 1)) =~= encode_questions(qs.take(i))
            + spec_encode_question(qs[i]));
    }
}

/// The encoding of a prefix of a question sequence is no longer than the
/// encoding of all of it.
pub proof fn lemma_encode_questions_take_le(qs: Seq<QuestionModel>, i: int)
    requires
        0 <= i <= qs.len(),
    ensures
        encode_questions(qs.take(i)).len() <= encode_questions(qs).len(),
    decreases qs.len() - i,
{
    if i == qs.len() {
        assert(qs.take(i) =~= qs);
    } else {
        lemma_encode_questions_take_succ(qs, i);
        lemma_encode_questions_take_le(qs, i + 1);
    }
}

/// Appending one answer extends the encoded sequence by that answer's bytes.
pub proof fn lemma_encode_answers_take_succ(ans: Seq<AnswerModel>, i: int)
    requires
        0 <= i < ans.len(),
    ensures
        encode_answers(ans.take(i + 1)) == encode_answers(ans.take(i)) + spec_encode_answer(ans[i]),
    decreases i,
{
    if i == 0 {
        assert(ans.take(0) =~= Seq::<AnswerModel>::empty());
        assert(ans.take(1).drop_first() =~= Seq::<AnswerModel>::empty());
        assert(encode_answers(ans.take(1)) =~= encode_answers(ans.take(0)) + spec_encode_answer(
            ans[0],
        ));
    } else {
        lemma_encode_answers_take_succ(ans.drop_first(), i - 1);
        assert(ans.take(i + 1).drop_first() =~= ans.drop_first().take(i));
        assert(ans.take(i).drop_first() =~= ans.drop_first().take(i - 1));
        assert(encode_answers(ans.take(i + 1)) =~= encode_answers(ans.take(i)) + spec_encode_answer(
            ans[i],
        ));
    }
}

/// The encoding of a prefix of an answer sequence is no longer than the
/// encoding of all of it.
pub proof fn lemma_encode_answers_take_le(ans: Seq<AnswerModel>, i: int)
    requires
        0 <= i <= ans.len(),
    ensures
        encode_answers(ans.take(i)).len() <= encode_answers(ans).len(),
    decreases ans.len() - i,
{
    if i == ans.len() {
        assert(ans.take(i) =~= ans);
    } else {
        lemma_encode_answers_take_succ(ans, i);
        lemma_encode_answers_take_le(ans, i + 1);
    }
}

/// The encoded message's length is the sum of its three parts' lengths.
pub proof fn lemma_encode_message_len_parts(m: MessageModel)
    ensures
        spec_encode_message(m).len() == 12 + encode_questions(m.questions).len() + encode_answers(
            m.answers,
        ).len(),
{
}

/// Wherever the encodings of well-formed questions lie back to back in a
/// buffer, decoding that many questions at their start yields exactly those
/// questions and stops just past the last, whatever else the buffer holds.
pub proof fn lemma_decode_questions_encoded(b: Seq<u8>, off: int, qs: Seq<QuestionModel>)
    requires
        forall|i: int| 0 <= i < qs.len() ==> name_wf(#[trigger] qs[i].name),
        0 <= off,
        off + encode_questions(qs).len() <= b.len(),
        b.subrange(off, off + encode_questions(qs).len()) == encode_questions(qs),
    ensures
        spec_decode_questions(b, off, qs.len() as nat) == Ok::<
            (Seq<QuestionModel>, int),
            DecodeError,
        >((qs, off + encode_questions(qs).len())),
    decreases qs.len(),
{
    let e = encode_questions(qs);
    let n = e.len() as int;
    assert forall|j: int| 0 <= j < n implies #[trigger] b[off + j] == e[j] by {
        assert(b.subrange(off, off + n)[j] == b[off + j]);
    }
    if qs.len() == 0 {
        assert(qs =~= Seq::<QuestionModel>::empty());
    } else {
        let eq = spec_encode_question(qs[0]);
        let rest = qs.drop_first();
        assert(b.subrange(off, off + eq.len() as int) =~= eq);
        lemma_decode_question_encoded(b, off, qs[0]);
        let off2 = off + eq.len() as int;
        let erest = encode_questions(rest);
        assert(b.subrange(off2, off2 + erest.len() as int) =~= erest) by {
            assert forall|j: int| 0 <= j < erest.len() implies #[trigger] b.subrange(
                off2,
                off2 + erest.len() as int,
            )[j] == erest[j] by {
                assert(b[off2 + j] == e[eq.len() + j]);
                assert(e[eq.len() + j] == erest[j]);
            }
        }
        assert forall|i: int| 0 <= i < rest.len() implies name_wf(#[trigger] rest[i].name) by {
            assert(rest[i] == qs[i + 1]);
        }
        lemma_decode_questions_encoded(b, off2, rest);
        assert(seq![qs[0]] + rest =~= qs);
        assert((qs.len() as nat - 1) as nat == rest.len() as nat);
    }
}

/// Wherever the encodings of well-formed answers lie back to back in a
/// buffer, decoding that many answers at their start yields exactly those
/// answers and stops just past the last, whatever else the buffer holds.
pub proof fn lemma_decode_answers_encoded(b: Seq<u8>, off: int, ans: Seq<AnswerModel>)
    requires
        forall|i: int| 0 <= i < ans.len() ==> answer_wf(#[trigger] ans[i]),
        0 <= off,
        off + encode_answers(ans).len() <= b.len(),
        b.subrange(off, off + encode_answers(ans).len()) == encode_answers(ans),
    ensures
        spec_decode_answers(b, off, ans.len() as nat) == Ok::<(Seq<AnswerModel>, int), DecodeError>(
            (ans, off + encode_answers(ans).len()),
        ),
    decreases ans.len(),
{
    let e = encode_answers(ans);
    let n = e.len() as int;
    assert forall|j: int| 0 <= j < n implies #[trigger] b[off + j] == e[j] by {
        assert(b.subrange(off, off + n)[j] == b[off + j]);
    }
    if ans.len() == 0 {
        assert(ans =~= Seq::<AnswerModel>::empty());
    } else {
        let ea = spec_encode_answer(ans[0]);
        let rest = ans.drop_first();
        assert(b.subrange(off, off + ea.len() as int) =~= ea);
        lemma_decode_answer_encoded(b, off, ans[0]);
        let off2 = off + ea.len() as int;
        let erest = encode_answers(rest);
        assert(b.subrange(off2, off2 + erest.len() as int) =~= erest) by {
            assert forall|j: int| 0 <= j < erest.len() implies #[trigger] b.subrange(
                off2,
                off2 + erest.len() as int,
            )[j] == erest[j] by {
                assert(b[off2 + j] == e[ea.len() + j]);
                assert(e[ea.len() + j] == erest[j]);
            }
        }
        assert forall|i: int| 0 <= i < rest.len() implies answer_wf(#[trigger] rest[i]) by {
            assert(rest[i] == ans[i + 1]);
        }
        lemma_decode_answers_encoded(b, off2, rest);
        assert(seq![ans[0]] + rest =~= ans);
        assert((ans.len() as nat - 1) as nat == rest.len() as nat);
    }
}

/// Decoding the encoding of a well-formed message gives the message back:
/// the codec's round trip.
#[verifier::rlimit(100)]
pub proof fn lemma_message_roundtrip(m: MessageModel)
    requires
        message_wf(m),
    ensures
        spec_decode_message(spec_encode_message(m)) == Ok::<MessageModel, DecodeError>(m),
{
    let e = spec_encode_message(m);
    let eh = spec_encode_header(m.header);
    let eq = encode_questions(m.questions);
    let ea = encode_answers(m.answers);
    assert(e.subrange(0, 12) =~= eh);
    lemma_decode_header_prefix(e, m.header);
    assert(e.subrange(12, 12 + eq.len() as int) =~= eq);
    lemma_decode_questions_encoded(e, 12, m.questions);
    let off2 = 12 + eq.len() as int;
    assert(e.subrange(off2, off2 + ea.len() as int) =~= ea);
    lemma_decode_answers_encoded(e, off2, m.answers);
    let d = spec_decode_message(e);
    assert(d matches Ok(dm) && dm =~= m);
}

} // verus!

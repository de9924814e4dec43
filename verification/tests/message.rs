use dns_codec::answer::AnswerProperties;
use dns_codec::domain_name::DomainName;
use dns_codec::enums::{RecordClass, RecordType};
use dns_codec::errors::DecodeError;
use dns_codec::header::{Flags, HeaderProperties};
use dns_codec::message::{MessageBuffer, MessageProperties};
use dns_codec::question::QuestionProperties;

fn sample_message() -> MessageProperties {
    MessageProperties {
        header: HeaderProperties {
            id: 0xabcd,
            flags: Flags::response()
                .or(Flags::recursion_desired(true))
                .or(Flags::from_operation_code(0))
                .or(Flags::from_response_code(0)),
            question_count: 1,
            answer_record_count: 1,
            authority_record_count: 0,
            additional_record_count: 0,
        },
        questions: vec![QuestionProperties {
            domain_name: DomainName::from_text("abc.com"),
            record_type: RecordType::host(),
            record_class: RecordClass::internet(),
        }],
        answers: vec![AnswerProperties {
            domain_name: DomainName::from_text("abc.com"),
            record_type: RecordType::host(),
            record_class: RecordClass::internet(),
            time_to_live: 60,
            data: vec![8, 8, 8, 8],
        }],
    }
}

#[test]
fn message_round_trips_through_its_encoding() {
    let message = sample_message();

    let buffer = MessageBuffer::from_properties(&message);
    let decoded = buffer.to_properties().unwrap();

    assert_eq!(decoded, message);
}

#[test]
fn message_size_matches_its_encoding() {
    let message = sample_message();

    let buffer = MessageBuffer::from_properties(&message);

    assert_eq!(message.size_of(), buffer.0.len());
    // header + question (13) + answer (23)
    assert_eq!(message.size_of(), 12 + 13 + 23);
}

#[test]
fn message_with_two_questions_keeps_their_order() {
    let mut message = sample_message();
    message.answers = vec![];
    message.header.answer_record_count = 0;
    message.questions.push(QuestionProperties {
        domain_name: DomainName::from_text("xyz.org"),
        record_type: RecordType::from(28),
        record_class: RecordClass::internet(),
    });
    message.header.question_count = 2;

    let buffer = MessageBuffer::from_properties(&message);
    let decoded = buffer.to_properties().unwrap();

    assert_eq!(decoded.questions.len(), 2);
    assert_eq!(decoded.questions[0].domain_name.0, vec!["abc", "com"]);
    assert_eq!(decoded.questions[1].domain_name.0, vec!["xyz", "org"]);
}

#[test]
fn message_short_of_declared_records_fails() {
    // a header alone, declaring one question that is not there
    let header = HeaderProperties {
        id: 1,
        flags: Flags::query(),
        question_count: 1,
        answer_record_count: 0,
        authority_record_count: 0,
        additional_record_count: 0,
    };
    let buffer = MessageBuffer(header.to_bytes());

    assert_eq!(
        buffer.to_properties(),
        Err(DecodeError::MalformedName)
    );
}

#[test]
fn message_from_short_buffer_is_truncated() {
    let buffer = MessageBuffer(vec![0u8; 5]);
    assert_eq!(
        buffer.to_properties(),
        Err(DecodeError::TruncatedBuffer)
    );
}

use dns_codec::domain_name::DomainName;
use dns_codec::enums::{RecordClass, RecordType};
use dns_codec::errors::DecodeError;
use dns_codec::hex::parse;
use dns_codec::question::{QuestionBuffer, QuestionProperties};

#[test]
fn question_it_calculates_size_of() {
    let properties = QuestionProperties {
        domain_name: DomainName::from_text("abc.com"),
        record_type: RecordType::host(),
        record_class: RecordClass::internet(),
    };

    // 3 abc + 3 com + two length bytes + null byte + type + class
    assert_eq!(properties.size_of(), 6 + 2 + 1 + 2 + 2);
}

#[test]
fn question_it_converts_from_properties_to_buffer() {
    let properties = QuestionProperties {
        domain_name: DomainName::from_text("abc.com"),
        record_type: RecordType::host(),
        record_class: RecordClass::internet(),
    };

    let buffer = QuestionBuffer::from_properties(&properties);

    assert_eq!(buffer.0, parse("0361626303636f6d0000010001").unwrap());
}

#[test]
fn question_round_trips_through_its_encoding() {
    let properties = QuestionProperties {
        domain_name: DomainName::from_text("abc.com"),
        record_type: RecordType::from(28),
        record_class: RecordClass::from(3),
    };

    let buffer = QuestionBuffer::from_properties(&properties);
    let (decoded, end) = QuestionProperties::from_buffer(&buffer).unwrap();

    assert_eq!(decoded, properties);
    assert_eq!(end, buffer.0.len());
}

#[test]
fn question_missing_class_bytes_is_truncated() {
    // the name and the type fit, the class does not
    let bytes = parse("0361626303636f6d000001").unwrap();
    assert_eq!(
        QuestionProperties::from_buffer(&QuestionBuffer(bytes, 0)),
        Err(DecodeError::TruncatedBuffer)
    );
}

use dns_codec::answer::{AnswerBuffer, AnswerProperties};
use dns_codec::domain_name::DomainName;
use dns_codec::enums::{RecordClass, RecordType};
use dns_codec::errors::DecodeError;
use dns_codec::hex::parse;

#[test]
fn answer_it_calculates_size_of() {
    let properties = AnswerProperties {
        domain_name: DomainName::from_text("abc.com"),
        record_type: RecordType::host(),
        record_class: RecordClass::internet(),
        time_to_live: 0x12,
        data: vec![],
    };

    // 3 abc + 3 com + two length bytes + null byte
    // + type + class + ttl + data length + data
    assert_eq!(properties.size_of(), (6 + 2 + 1) + 2 + 2 + 4 + 2 + 0);
}

#[test]
fn answer_it_converts_from_properties_to_buffer() {
    let properties = AnswerProperties {
        domain_name: DomainName::from_text("abc.com"),
        record_type: RecordType::host(),
        record_class: RecordClass::internet(),
        time_to_live: 0x12,
        data: vec![],
    };

    let buffer = AnswerBuffer::from_properties(&properties);

    assert_eq!(
        buffer.0,
        parse("0361626303636f6d0000010001000000120000").unwrap()
    );
}

#[test]
fn answer_round_trips_through_its_encoding() {
    let properties = AnswerProperties {
        domain_name: DomainName::from_text("abc.com"),
        record_type: RecordType::host(),
        record_class: RecordClass::internet(),
        time_to_live: 60,
        data: vec![8, 8, 8, 8],
    };

    let buffer = AnswerBuffer::from_properties(&properties);
    let (decoded, end) = AnswerProperties::from_buffer(&buffer).unwrap();

    assert_eq!(decoded, properties);
    assert_eq!(end, buffer.0.len());
}

#[test]
fn answer_data_shorter_than_declared_is_truncated() {
    // data length says four bytes, only two follow
    let bytes = parse("0361626303636f6d00000100010000003c00040808").unwrap();
    assert_eq!(
        AnswerProperties::from_buffer(&AnswerBuffer(bytes, 0)),
        Err(DecodeError::TruncatedBuffer)
    );
}

#[test]
fn answer_missing_fixed_fields_is_truncated() {
    // the name fits, the ten fixed bytes do not
    let bytes = parse("0361626303636f6d0000").unwrap();
    assert_eq!(
        AnswerProperties::from_buffer(&AnswerBuffer(bytes, 0)),
        Err(DecodeError::TruncatedBuffer)
    );
}

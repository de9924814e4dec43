use dns_codec::errors::DecodeError;
use dns_codec::header::{Flags, HeaderBuffer, HeaderProperties};
use dns_codec::hex::parse;

#[test]
fn it_converts_from_buffer_to_properties() {
    let test_buffer: HeaderBuffer = HeaderBuffer(parse("abcd00000000000000000000").unwrap());
    let header = HeaderProperties::from_buffer(&test_buffer).unwrap();
    println!("{:?}", &header.id);

    assert_eq!(header.id, 0xabcd);
    assert_eq!(header.is_query(), true);
    assert_eq!(header.is_response(), false);
    assert_eq!(header.operation_code(), 0);
    assert_eq!(header.is_authoritative(), false);
    assert_eq!(header.is_truncated(), false);
    assert_eq!(header.is_recursion_desired(), false);
    assert_eq!(header.is_recursion_available(), false);
    assert_eq!(header.response_code(), 0);
    assert_eq!(header.question_count, 0);
    assert_eq!(header.answer_record_count, 0);
    assert_eq!(header.authority_record_count, 0);
    assert_eq!(header.additional_record_count, 0);
}

#[test]
fn it_converts_twoway() {
    let test_buffer: HeaderBuffer = HeaderBuffer(parse("abcd00000000000000000000").unwrap());

    let properties = HeaderProperties::from_buffer(&test_buffer).unwrap();
    let buffer = HeaderBuffer::from_properties(&properties);

    assert_eq!(buffer.0, test_buffer.0);
}

#[test]
fn it_convert_op_code_to_flags() {
    let flags = Flags::from_operation_code(7);

    assert_eq!(flags.operation_code(), 7);
}

#[test]
fn it_convert_response_code_to_flags() {
    let flags = Flags::from_response_code(7);

    assert_eq!(flags.response_code(), 7);
}

#[test]
fn setting_opcode_leaves_other_fields_alone() {
    let flags = Flags::response()
        .or(Flags::recursion_desired(true))
        .or(Flags::from_response_code(4))
        .or(Flags::from_operation_code(7));

    assert_eq!(flags.operation_code(), 7);
    assert_eq!(flags.is_response(), true);
    assert_eq!(flags.is_query(), false);
    assert_eq!(flags.is_authoritative(), false);
    assert_eq!(flags.is_truncated(), false);
    assert_eq!(flags.is_recursion_desired(), true);
    assert_eq!(flags.is_recursion_available(), false);
    assert_eq!(flags.response_code(), 4);
}

#[test]
fn header_from_short_buffer_is_truncated() {
    let short = HeaderBuffer(vec![0u8; 11]);
    assert_eq!(
        HeaderProperties::from_buffer(&short),
        Err(DecodeError::TruncatedBuffer)
    );

    let empty = HeaderBuffer(Vec::new());
    assert_eq!(
        HeaderProperties::from_buffer(&empty),
        Err(DecodeError::TruncatedBuffer)
    );
}

#[test]
fn header_encodes_its_fields_big_endian() {
    let header = HeaderProperties {
        id: 0x1234,
        flags: Flags::response(),
        question_count: 1,
        answer_record_count: 2,
        authority_record_count: 3,
        additional_record_count: 4,
    };

    let buffer = HeaderBuffer::from_properties(&header);

    assert_eq!(
        buffer.0,
        parse("123480000001000200030004").unwrap()
    );
    assert_eq!(header.size_of(), 12);
}

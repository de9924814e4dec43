use dns_codec::domain_name::DomainName;
use dns_codec::errors::DecodeError;

#[test]
fn it_converts_from_str_to_domain_name() {
    let domain_name = DomainName::from_text("abc.com");

    assert_eq!(domain_name.0, vec!["abc".to_string(), "com".to_string()]);
}

#[test]
fn domain_name_it_calculates_size_of() {
    let domain_name = DomainName::from_text("abc.com");

    // 3 abc + 3 com + two length bytes + null byte
    assert_eq!(domain_name.size_of(), 6 + 2 + 1);
}

#[test]
fn name_round_trips_through_its_encoding() {
    let name = DomainName::from_text("abc.com");
    let bytes = name.to_bytes();

    let (decoded, next) = DomainName::from_bytes(&bytes, 0).unwrap();

    assert_eq!(decoded.0, name.0);
    assert_eq!(next, bytes.len());
}

#[test]
fn root_name_is_a_single_zero_byte() {
    let name = DomainName(Vec::new());
    assert_eq!(name.to_bytes(), vec![0u8]);

    let (decoded, next) = DomainName::from_bytes(&[0u8], 0).unwrap();
    assert_eq!(decoded.0, Vec::<String>::new());
    assert_eq!(next, 1);
}

#[test]
fn pointer_resolves_to_the_name_it_targets() {
    let mut buffer = vec![0u8; 12];
    buffer.extend(DomainName::from_text("abc.com").to_bytes());
    while buffer.len() < 30 {
        buffer.push(0);
    }
    buffer.push(0xc0);
    buffer.push(0x0c);

    let (name, next) = DomainName::from_bytes(&buffer, 30).unwrap();

    assert_eq!(name.0, vec!["abc".to_string(), "com".to_string()]);
    assert_eq!(next, 32);
}

#[test]
fn label_running_past_buffer_is_malformed() {
    assert_eq!(
        DomainName::from_bytes(&[3, b'a'], 0),
        Err(DecodeError::MalformedName)
    );
}

#[test]
fn non_text_label_byte_is_malformed() {
    assert_eq!(
        DomainName::from_bytes(&[1, 0x80, 0], 0),
        Err(DecodeError::MalformedName)
    );
}

#[test]
fn pointer_past_buffer_end_is_malformed() {
    assert_eq!(
        DomainName::from_bytes(&[0xc0], 0),
        Err(DecodeError::MalformedName)
    );
}

#[test]
fn pointer_to_pointer_is_an_invalid_chain() {
    let buffer = vec![0xc0, 0x02, 0xc0, 0x00];
    assert_eq!(
        DomainName::from_bytes(&buffer, 0),
        Err(DecodeError::InvalidPointerChain)
    );
}

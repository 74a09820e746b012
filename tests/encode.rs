use dns_codec::{
    create_message, decode_domain_name, decode_message, encode_message, encode_message_header,
    encode_query, encode_resource_record, AuthoritativeAnswer, DecodeError, Flags, Message,
    MessageHeader, Name, Opcode, Query, QueryClass, QueryType, Rcode, RecursionAvailable,
    RecursionDesired, ResourceClass, ResourceData, ResourceRecord, ResourceType, Truncated, QR,
};

fn labels(parts: &[&str]) -> Vec<String> {
    parts.iter().map(|s| String::from(*s)).collect()
}

fn request_header(query_count: u16) -> MessageHeader {
    MessageHeader {
        message_id: 0x6906,
        flags: Flags {
            qr: QR::Query,
            opcode: Opcode::Query,
            aa: AuthoritativeAnswer::NonAuthoritative,
            truncated: Truncated::NotTruncated,
            recursion_desired: RecursionDesired::Desired,
            recursion_available: RecursionAvailable::NotAvailable,
            rcode: Rcode::NoError,
        },
        query_count,
        answer_count: 0,
        name_server_count: 0,
        additional_count: 0,
    }
}

#[test]
fn test_encode_message() {
    let message_bytes =
        hex::decode("690601000001000000000000076578616d706c6503636f6d0000010001").unwrap();
    let message = Message {
        header: MessageHeader {
            message_id: 0x6906,
            flags: Flags {
                qr: QR::Query,
                opcode: Opcode::Query,
                aa: AuthoritativeAnswer::NonAuthoritative,
                truncated: Truncated::NotTruncated,
                recursion_desired: RecursionDesired::Desired,
                recursion_available: RecursionAvailable::NotAvailable,
                rcode: Rcode::NoError,
            },
            query_count: 1,
            answer_count: 0,
            name_server_count: 0,
            additional_count: 0,
        },
        queries: vec![Query {
            name: Name(vec![String::from("example"), String::from("com")]),
            query_type: QueryType::A,
            query_class: QueryClass::Internet,
        }],
        answers: vec![],
    };
    let mut buffer: Vec<u8> = Vec::with_capacity(50);
    encode_message(&message, &mut buffer);
    assert_eq!(buffer, message_bytes);
}

#[test]
fn test_encode_message_header() {
    let message_header_bytes = hex::decode("690601000001000000000000").unwrap();
    let message_header = MessageHeader {
        message_id: 0x6906,
        flags: Flags {
            qr: QR::Query,
            opcode: Opcode::Query,
            aa: AuthoritativeAnswer::NonAuthoritative,
            truncated: Truncated::NotTruncated,
            recursion_desired: RecursionDesired::Desired,
            recursion_available: RecursionAvailable::NotAvailable,
            rcode: Rcode::NoError,
        },
        query_count: 1,
        answer_count: 0,
        name_server_count: 0,
        additional_count: 0,
    };
    let mut buffer: Vec<u8> = Vec::with_capacity(12);
    encode_message_header(&message_header, &mut buffer);
    assert_eq!(buffer, message_header_bytes);
}

#[test]
fn test_encode_query() {
    let query_bytes = hex::decode("076578616d706c6503636f6d0000010001").unwrap();
    let query = Query {
        name: Name(vec![String::from("example"), String::from("com")]),
        query_type: QueryType::A,
        query_class: QueryClass::Internet,
    };
    let mut buffer: Vec<u8> = Vec::with_capacity(12);
    encode_query(&query, &mut buffer);
    assert_eq!(buffer, query_bytes);
}

#[test]
fn encode_header_packs_every_flag() {
    let header = MessageHeader {
        message_id: 0xbeef,
        flags: Flags {
            qr: QR::Response,
            opcode: Opcode::Status,
            aa: AuthoritativeAnswer::Authoritative,
            truncated: Truncated::Truncated,
            recursion_desired: RecursionDesired::NotDesired,
            recursion_available: RecursionAvailable::Available,
            rcode: Rcode::Refused,
        },
        query_count: 2,
        answer_count: 3,
        name_server_count: 4,
        additional_count: 5,
    };
    let mut buffer = Vec::new();
    encode_message_header(&header, &mut buffer);
    // 1 0010 1 1 0 1 000 0101
    assert_eq!(buffer, hex::decode("beef96850002000300040005").unwrap());
}

#[test]
fn encode_resource_record_writes_payload_length() {
    let record = ResourceRecord {
        name: Name(labels(&["a"])),
        resource_type: ResourceType::A,
        resource_class: ResourceClass::Internet,
        ttl: 300,
        rdata: ResourceData::A(0x7f000001),
    };
    let mut buffer = Vec::new();
    encode_resource_record(&record, &mut buffer);
    assert_eq!(buffer, hex::decode("016100000100010000012c00047f000001").unwrap());
}

#[test]
fn encode_message_counts_come_from_sections() {
    let mut header = request_header(7);
    header.answer_count = 9;
    header.name_server_count = 3;
    header.additional_count = 2;
    let message = Message {
        header,
        queries: vec![Query {
            name: Name(labels(&["a"])),
            query_type: QueryType::AAAA,
            query_class: QueryClass::Internet,
        }],
        answers: vec![],
    };
    let mut buffer = Vec::new();
    encode_message(&message, &mut buffer);
    assert_eq!(&buffer[4..12], &hex::decode("0001000000000000").unwrap()[..]);
}

#[test]
fn create_message_builds_request() {
    let message = create_message("example.com", QueryType::A, 0x6906).unwrap();
    let mut buffer = Vec::new();
    encode_message(&message, &mut buffer);
    assert_eq!(
        buffer,
        hex::decode("690601000001000000000000076578616d706c6503636f6d0000010001").unwrap()
    );
}

#[test]
fn create_message_rejects_long_label() {
    let long = "a".repeat(64);
    assert_eq!(create_message(&long, QueryType::A, 1), Err(DecodeError::MalformedName));
    let ok = "a".repeat(63);
    assert!(create_message(&ok, QueryType::A, 1).is_ok());
}

#[test]
fn create_message_rejects_long_name() {
    // 4 labels of 63 bytes: 4 * 64 + 1 = 257 bytes on the wire.
    let label = "b".repeat(63);
    let text = vec![label.clone(), label.clone(), label.clone(), label.clone()].join(".");
    assert_eq!(create_message(&text, QueryType::A, 1), Err(DecodeError::MalformedName));
    // 3 labels of 63 and one of 61: 3 * 64 + 62 + 1 = 255 bytes.
    let text = vec![label.clone(), label.clone(), label, "c".repeat(61)].join(".");
    assert!(create_message(&text, QueryType::A, 1).is_ok());
}

#[test]
fn create_message_rejects_empty_text() {
    assert_eq!(create_message("", QueryType::A, 1), Err(DecodeError::MalformedName));
    assert_eq!(create_message(".com", QueryType::A, 1), Err(DecodeError::MalformedName));
}

#[test]
fn decode_domain_name_stops_where_the_name_ends() {
    assert_eq!(decode_domain_name("www.example.com"), Ok(vec!["www", "example", "com"]));
    assert_eq!(decode_domain_name("example.com."), Ok(vec!["example", "com"]));
    assert_eq!(decode_domain_name("a..b"), Ok(vec!["a"]));
    assert_eq!(decode_domain_name("host1 rest"), Ok(vec!["host1"]));
    assert_eq!(decode_domain_name("-x"), Err(DecodeError::MalformedName));
    assert_eq!(dns_codec::decode_domain_name_inner("ab.c!d"), Ok(("!d", vec!["ab", "c"])));
}

#[test]
fn request_decodes_back() {
    let message = create_message("example.com", QueryType::AAAA, 42).unwrap();
    let mut buffer = Vec::new();
    encode_message(&message, &mut buffer);
    assert_eq!(decode_message(&buffer), Ok(message));
}

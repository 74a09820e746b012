use dns_codec::{
    decode_domain_name_inner, message, message_header, name, name_label, query, resource_record,
    AuthoritativeAnswer, DnsFrameInput, Flags, Message, MessageHeader, Name, Opcode, Query,
    QueryClass, QueryType, Rcode, RecursionAvailable, RecursionDesired, ResourceClass,
    ResourceData, ResourceRecord, ResourceType, Truncated, QR,
};

fn labels(parts: &[&str]) -> Vec<String> {
    parts.iter().map(|s| String::from(*s)).collect()
}

#[test]
fn test_decode_domain_name_inner() {
    let domain_name = "example.com";
    let result = decode_domain_name_inner(domain_name);
    assert_eq!(result, Ok(("", vec!["example", "com"])));
}

#[test]
fn test_message_request() {
    let message_bytes =
        hex::decode("690601000001000000000000076578616d706c6503636f6d0000010001").unwrap();
    let result = message(&message_bytes);

    assert_eq!(
        result,
        Ok((
            &b""[..],
            Message {
                header: MessageHeader {
                    message_id: 0x6906,
                    flags: Flags {
                        qr: QR::Query,
                        opcode: Opcode::Query,
                        aa: AuthoritativeAnswer::NonAuthoritative,
                        truncated: Truncated::NotTruncated,
                        recursion_desired: RecursionDesired::Desired,
                        recursion_available: RecursionAvailable::NotAvailable,
                        rcode: Rcode::NoError,
                    },
                    query_count: 1,
                    answer_count: 0,
                    name_server_count: 0,
                    additional_count: 0,
                },
                queries: vec![Query {
                    name: Name(vec![String::from("example"), String::from("com")]),
                    query_type: QueryType::A,
                    query_class: QueryClass::Internet,
                }],
                answers: vec![]
            }
        ))
    );
}

#[test]
fn test_message_response() {
    let message_bytes = hex::decode(
        "690681800001000100000000076578616d706c6503636f6d0000010001c00c0001000100005a0200045db8d822",
    )
    .unwrap();
    let result = message(&message_bytes);

    assert_eq!(
        result,
        Ok((
            &b""[..],
            Message {
                header: MessageHeader {
                    message_id: 0x6906,
                    flags: Flags {
                        qr: QR::Response,
                        opcode: Opcode::Query,
                        aa: AuthoritativeAnswer::NonAuthoritative,
                        truncated: Truncated::NotTruncated,
                        recursion_desired: RecursionDesired::Desired,
                        recursion_available: RecursionAvailable::Available,
                        rcode: Rcode::NoError,
                    },
                    query_count: 1,
                    answer_count: 1,
                    name_server_count: 0,
                    additional_count: 0,
                },
                queries: vec![Query {
                    name: Name(vec![String::from("example"), String::from("com")]),
                    query_type: QueryType::A,
                    query_class: QueryClass::Internet,
                }],
                answers: vec![ResourceRecord {
                    name: Name(vec![String::from("example"), String::from("com")]),
                    resource_type: ResourceType::A,
                    resource_class: ResourceClass::Internet,
                    ttl: 23042,
                    rdata: ResourceData::A(0x5db8d822)
                }]
            }
        ))
    );
}

#[test]
fn message_header_query() {
    let dns_message_bytes = hex::decode("690601000001000000000000").unwrap();

    let result = message_header(&dns_message_bytes);
    assert_eq!(
        result,
        Ok((
            &b""[..],
            MessageHeader {
                message_id: 0x6906,
                flags: Flags {
                    qr: QR::Query,
                    opcode: Opcode::Query,
                    aa: AuthoritativeAnswer::NonAuthoritative,
                    truncated: Truncated::NotTruncated,
                    recursion_desired: RecursionDesired::Desired,
                    recursion_available: RecursionAvailable::NotAvailable,
                    rcode: Rcode::NoError,
                },
                query_count: 1,
                answer_count: 0,
                name_server_count: 0,
                additional_count: 0,
            }
        ))
    );
}

#[test]
fn message_header_response() {
    let dns_message_bytes = hex::decode("690681800001000100000000").unwrap();

    let result = message_header(&dns_message_bytes);
    assert_eq!(
        result,
        Ok((
            &b""[..],
            MessageHeader {
                message_id: 0x6906,
                flags: Flags {
                    qr: QR::Response,
                    opcode: Opcode::Query,
                    aa: AuthoritativeAnswer::NonAuthoritative,
                    truncated: Truncated::NotTruncated,
                    recursion_desired: RecursionDesired::Desired,
                    recursion_available: RecursionAvailable::Available,
                    rcode: Rcode::NoError,
                },
                query_count: 1,
                answer_count: 1,
                name_server_count: 0,
                additional_count: 0,
            }
        ))
    );
}

#[test]
fn test_name_label() {
    let dns_query_bytes = hex::decode("03777777086D79646F6D61696E03636F6D00").unwrap();
    let result = name(DnsFrameInput::new(&dns_query_bytes));

    assert_eq!(
        result,
        Ok((
            DnsFrameInput {
                frame: &dns_query_bytes,
                input: &b""[..],
            },
            vec![
                String::from("www"),
                String::from("mydomain"),
                String::from("com")
            ]
        ))
    );
}

#[test]
fn test_name_pointer() {
    let message = hex::decode("690681800001000100000000076578616d706c6503636f6d0000010001c00c0001000100005a0200045db8d822").unwrap();
    let result = name(DnsFrameInput {
        frame: &message,
        input: &message[29..],
    });

    assert_eq!(
        result,
        Ok((
            DnsFrameInput {
                frame: &message,
                input: &message[31..],
            },
            vec![String::from("example"), String::from("com")]
        ))
    );
}

#[test]
fn test_label() {
    let dns_query_bytes = hex::decode("03777777086D79646F6D61696E03636F6D00").unwrap();
    let result = name_label(DnsFrameInput::new(&dns_query_bytes));

    assert_eq!(
        result,
        Ok((
            DnsFrameInput {
                frame: &dns_query_bytes,
                input: &dns_query_bytes[4..],
            },
            String::from("www"),
        ))
    );

    let result = name_label(DnsFrameInput::new(&dns_query_bytes[4..]));
    assert_eq!(
        result,
        Ok((
            DnsFrameInput {
                frame: &dns_query_bytes[4..],
                input: &dns_query_bytes[13..],
            },
            String::from("mydomain"),
        ))
    );

    let result = name_label(DnsFrameInput::new(&dns_query_bytes[13..]));
    assert_eq!(
        result,
        Ok((
            DnsFrameInput {
                frame: &dns_query_bytes[13..],
                input: &[0u8][..]
            },
            String::from("com"),
        ))
    );
}

#[test]
fn test_query() {
    let dns_query_bytes = hex::decode("076578616d706c6503636f6d0000010001").unwrap();
    let result = query(DnsFrameInput::new(&dns_query_bytes));

    assert_eq!(
        result,
        Ok((
            DnsFrameInput {
                frame: &dns_query_bytes,
                input: &b""[..],
            },
            Query {
                name: Name(vec![String::from("example"), String::from("com")]),
                query_type: QueryType::A,
                query_class: QueryClass::Internet,
            }
        ))
    );
}

#[test]
fn test_resource_record_a_record() {
    let message = hex::decode("690681800001000100000000076578616d706c6503636f6d0000010001c00c0001000100005a0200045db8d822").unwrap();
    let result = resource_record(DnsFrameInput {
        frame: &message,
        input: &message[29..],
    });

    assert_eq!(
        result,
        Ok((
            DnsFrameInput {
                frame: &message,
                input: &b""[..],
            },
            ResourceRecord {
                name: Name(vec![String::from("example"), String::from("com")]),
                resource_type: ResourceType::A,
                resource_class: ResourceClass::Internet,
                ttl: 23042,
                rdata: ResourceData::A(0x5db8d822)
            }
        ))
    );
}

#[test]
fn test_resource_record_aaaa_record() {
    let message =
        hex::decode("653081800001000100000000076578616d706c6503636f6d00001c0001c00c001c0001000130c8001026062800022000010248189325c81946").unwrap();
    let result = resource_record(DnsFrameInput {
        frame: &message,
        input: &message[29..],
    });

    assert_eq!(
        result,
        Ok((
            DnsFrameInput {
                frame: &message,
                input: &b""[..],
            },
            ResourceRecord {
                name: Name(vec![String::from("example"), String::from("com")]),
                resource_type: ResourceType::AAAA,
                resource_class: ResourceClass::Internet,
                ttl: 78024,
                rdata: ResourceData::AAAA(0x2606_2800_0220_0001_0248_1893_25c8_1946)
            }
        ))
    );
}

#[test]
fn utf8_label_is_decoded_to_its_characters() {
    // "ü" is the two bytes c3 bc in UTF-8.
    let bytes = hex::decode("02c3bc00").unwrap();
    let result = name(DnsFrameInput::new(&bytes));
    assert_eq!(result.map(|(_, l)| l), Ok(labels(&["ü"])));
}

#[test]
fn decode_unknown_codes_are_kept() {
    // opcode 5, rcode 9, reserved bits set: the reserved bits are ignored.
    let bytes = hex::decode("0001287900000000000000000000").unwrap();
    let (_, header) = message_header(&bytes).unwrap();
    assert_eq!(header.flags.opcode, Opcode::Unknown(5));
    assert_eq!(header.flags.rcode, Rcode::Unknown(9));
    assert_eq!(header.flags.qr, QR::Query);
    assert_eq!(header.flags.aa, AuthoritativeAnswer::NonAuthoritative);
    let q = hex::decode("0000630063").unwrap();
    let (_, decoded) = query(DnsFrameInput::new(&q)).unwrap();
    assert_eq!(decoded.query_type, QueryType::Unknown(99));
    assert_eq!(decoded.query_class, QueryClass::Unknown(99));
}

#[test]
fn query_with_unknown_type_code() {
    let bytes = hex::decode("01610000ff0003").unwrap();
    let (rest, q) = query(DnsFrameInput::new(&bytes)).unwrap();
    assert_eq!(rest.input, &b""[..]);
    assert_eq!(q.name, Name(labels(&["a"])));
    assert_eq!(q.query_type, QueryType::ANY);
    assert_eq!(q.query_class, QueryClass::Unknown(3));
}

use dns_codec::{
    decode_message, encode_message, message, message_header, name, resource_record,
    AuthoritativeAnswer, DecodeError, DnsFrameInput, Flags, Message, MessageHeader, Name, Opcode,
    Query, QueryClass, QueryType, Rcode, RecursionAvailable, RecursionDesired, ResourceClass,
    ResourceData, ResourceRecord, ResourceType, Truncated, QR,
};

fn labels(parts: &[&str]) -> Vec<String> {
    parts.iter().map(|s| String::from(*s)).collect()
}

fn header_with_flags(word: u16) -> Vec<u8> {
    let mut bytes = vec![0x12, 0x34];
    bytes.extend_from_slice(&word.to_be_bytes());
    bytes.extend_from_slice(&[0u8; 8]);
    bytes
}

#[test]
fn each_of_the_five_flag_bits_decodes_on_its_own() {
    for combo in 0u16..32 {
        let qr = combo & 1 != 0;
        let aa = combo & 2 != 0;
        let tc = combo & 4 != 0;
        let rd = combo & 8 != 0;
        let ra = combo & 16 != 0;
        let word = (qr as u16) << 15
            | 3 << 11
            | (aa as u16) << 10
            | (tc as u16) << 9
            | (rd as u16) << 8
            | (ra as u16) << 7
            | 2;
        let (_, header) = message_header(&header_with_flags(word)).unwrap();
        let expected = Flags {
            qr: if qr { QR::Response } else { QR::Query },
            opcode: Opcode::Unknown(3),
            aa: if aa {
                AuthoritativeAnswer::Authoritative
            } else {
                AuthoritativeAnswer::NonAuthoritative
            },
            truncated: if tc { Truncated::Truncated } else { Truncated::NotTruncated },
            recursion_desired: if rd {
                RecursionDesired::Desired
            } else {
                RecursionDesired::NotDesired
            },
            recursion_available: if ra {
                RecursionAvailable::Available
            } else {
                RecursionAvailable::NotAvailable
            },
            rcode: Rcode::ServerFailure,
        };
        assert_eq!(header.flags, expected);
        assert_eq!(header.message_id, 0x1234);
    }
}

#[test]
fn pointer_decodes_to_the_name_it_targets() {
    // "example.com" at offset 2, then a pointer to it at offset 15.
    let frame = hex::decode("ffff076578616d706c6503636f6d00c002").unwrap();
    let at_target = name(DnsFrameInput { frame: &frame, input: &frame[2..] }).unwrap();
    let at_pointer = name(DnsFrameInput { frame: &frame, input: &frame[15..] }).unwrap();
    assert_eq!(at_pointer.1, at_target.1);
    assert_eq!(at_pointer.1, labels(&["example", "com"]));
    assert_eq!(at_pointer.0.input, &b""[..]);
}

#[test]
fn labels_before_a_pointer_are_kept() {
    let frame = hex::decode("03636f6d000377777703666f6fc000").unwrap();
    let (rest, decoded) = name(DnsFrameInput { frame: &frame, input: &frame[5..] }).unwrap();
    assert_eq!(decoded, labels(&["www", "foo", "com"]));
    assert_eq!(rest.input, &b""[..]);
}

#[test]
fn pointer_to_itself_is_rejected() {
    let frame = hex::decode("0000c002").unwrap();
    let result = name(DnsFrameInput { frame: &frame, input: &frame[2..] });
    assert_eq!(result, Err(DecodeError::MalformedName));
}

#[test]
fn mutual_pointers_are_rejected() {
    let frame = hex::decode("c002c000").unwrap();
    assert_eq!(name(DnsFrameInput::new(&frame)), Err(DecodeError::MalformedName));
    assert_eq!(
        name(DnsFrameInput { frame: &frame, input: &frame[2..] }),
        Err(DecodeError::MalformedName)
    );
}

#[test]
fn pointer_loop_through_labels_is_rejected() {
    // A label, then a pointer back to that label's own start.
    let frame = hex::decode("0161c000").unwrap();
    assert_eq!(name(DnsFrameInput::new(&frame)), Err(DecodeError::MalformedName));
}

#[test]
fn pointer_past_the_frame_is_rejected() {
    let frame = hex::decode("0161c3ff").unwrap();
    assert_eq!(name(DnsFrameInput::new(&frame)), Err(DecodeError::MalformedName));
    let frame = hex::decode("c010").unwrap();
    assert_eq!(name(DnsFrameInput::new(&frame)), Err(DecodeError::MalformedName));
}

#[test]
fn reserved_length_bits_are_rejected() {
    let frame = hex::decode("4000").unwrap();
    assert_eq!(name(DnsFrameInput::new(&frame)), Err(DecodeError::MalformedName));
    let frame = hex::decode("8000").unwrap();
    assert_eq!(name(DnsFrameInput::new(&frame)), Err(DecodeError::MalformedName));
}

#[test]
fn invalid_utf8_label_is_rejected() {
    let frame = hex::decode("01ff00").unwrap();
    assert_eq!(name(DnsFrameInput::new(&frame)), Err(DecodeError::MalformedName));
}

#[test]
fn truncated_names_are_rejected() {
    for hex_frame in ["", "03777777", "0377", "c0"] {
        let frame = hex::decode(hex_frame).unwrap();
        assert_eq!(name(DnsFrameInput::new(&frame)), Err(DecodeError::Truncated));
    }
}

#[test]
fn name_over_255_bytes_is_rejected() {
    // Four labels of 63 bytes: 257 bytes with the final zero.
    let mut frame = Vec::new();
    for _ in 0..4 {
        frame.push(63u8);
        frame.extend_from_slice(&[b'x'; 63]);
    }
    frame.push(0);
    assert_eq!(name(DnsFrameInput::new(&frame)), Err(DecodeError::MalformedName));
    // Three of 63 and one of 61: exactly 255 bytes.
    let mut frame = Vec::new();
    for size in [63usize, 63, 63, 61] {
        frame.push(size as u8);
        frame.extend(std::iter::repeat(b'y').take(size));
    }
    frame.push(0);
    assert_eq!(frame.len(), 255);
    let (_, decoded) = name(DnsFrameInput::new(&frame)).unwrap();
    assert_eq!(decoded.len(), 4);
}

#[test]
fn unsupported_type_skips_its_payload() {
    // Header with two answers, no queries; a CNAME record (type 5) whose
    // payload is 3 bytes, then an A record.
    let header = "abcd81800000000200000000";
    let cname = "01610000050001000000100003016200";
    let a_record = "016100000100010000001000040a000001";
    let frame = hex::decode(format!("{}{}{}", header, cname, a_record)).unwrap();
    let next = 12 + 3 + 10 + 3;
    assert_eq!(
        decode_message(&frame),
        Err(DecodeError::UnsupportedType { code: 5, next_record: next })
    );
    // The record that follows decodes from the offset that the error gives.
    let (rest, record) =
        resource_record(DnsFrameInput { frame: &frame, input: &frame[next..] }).unwrap();
    assert_eq!(record.rdata, ResourceData::A(0x0a000001));
    assert_eq!(rest.input, &b""[..]);
}

#[test]
fn payload_length_must_match_type() {
    let frame = hex::decode("016100000100010000001000050a00000102").unwrap();
    assert_eq!(
        resource_record(DnsFrameInput::new(&frame)),
        Err(DecodeError::RdataLengthMismatch)
    );
    let frame = hex::decode("016100001c00010000001000040a000001").unwrap();
    assert_eq!(
        resource_record(DnsFrameInput::new(&frame)),
        Err(DecodeError::RdataLengthMismatch)
    );
}

#[test]
fn payload_past_the_frame_is_truncated() {
    let frame = hex::decode("016100000100010000001000040a00").unwrap();
    assert_eq!(resource_record(DnsFrameInput::new(&frame)), Err(DecodeError::Truncated));
}

#[test]
fn declared_counts_beyond_the_bytes_are_truncated() {
    let frame = hex::decode("690601000002000000000000076578616d706c6503636f6d0000010001").unwrap();
    assert_eq!(decode_message(&frame), Err(DecodeError::Truncated));
    let frame = hex::decode("6906010000").unwrap();
    assert_eq!(decode_message(&frame), Err(DecodeError::Truncated));
}

#[test]
fn bytes_after_the_answers_are_returned() {
    let frame = hex::decode("690601000000000000010000aabb").unwrap();
    let (rest, m) = message(&frame).unwrap();
    assert_eq!(rest, &[0xaa, 0xbb][..]);
    assert_eq!(m.header.name_server_count, 1);
}

#[test]
fn request_scenario() {
    let frame =
        hex::decode("690601000001000000000000076578616d706c6503636f6d0000010001").unwrap();
    let m = decode_message(&frame).unwrap();
    assert_eq!(m.header.message_id, 0x6906);
    assert_eq!(m.header.flags.qr, QR::Query);
    assert_eq!(m.header.flags.opcode, Opcode::Query);
    assert_eq!(m.header.flags.recursion_desired, RecursionDesired::Desired);
    assert_eq!(m.header.flags.recursion_available, RecursionAvailable::NotAvailable);
    assert_eq!(m.header.flags.rcode, Rcode::NoError);
    assert_eq!(m.queries.len(), 1);
    assert_eq!(m.queries[0].name, Name(labels(&["example", "com"])));
    assert_eq!(m.queries[0].query_type, QueryType::A);
    assert_eq!(m.queries[0].query_class, QueryClass::Internet);
    assert!(m.answers.is_empty());
}

#[test]
fn compressed_response_scenario() {
    let frame = hex::decode(
        "690681800001000100000000076578616d706c6503636f6d0000010001c00c0001000100005a0200045db8d822",
    )
    .unwrap();
    let m = decode_message(&frame).unwrap();
    assert_eq!(m.queries[0].name, Name(labels(&["example", "com"])));
    assert_eq!(m.answers.len(), 1);
    let answer = &m.answers[0];
    assert_eq!(answer.name, Name(labels(&["example", "com"])));
    assert_eq!(answer.resource_type, ResourceType::A);
    assert_eq!(answer.ttl, 23042);
    assert_eq!(answer.rdata, ResourceData::A(0x5db8d822));
    assert_eq!(answer.rdata, ResourceData::A(u32::from_be_bytes([93, 184, 216, 34])));
}

#[test]
fn round_trip_with_a_and_aaaa_answers() {
    let m = Message {
        header: MessageHeader {
            message_id: 0x0102,
            flags: Flags {
                qr: QR::Response,
                opcode: Opcode::Unknown(7),
                aa: AuthoritativeAnswer::Authoritative,
                truncated: Truncated::NotTruncated,
                recursion_desired: RecursionDesired::Desired,
                recursion_available: RecursionAvailable::Available,
                rcode: Rcode::Unknown(11),
            },
            query_count: 1,
            answer_count: 2,
            name_server_count: 0,
            additional_count: 0,
        },
        queries: vec![Query {
            name: Name(labels(&["www", "exämple", "org"])),
            query_type: QueryType::Unknown(4242),
            query_class: QueryClass::Internet,
        }],
        answers: vec![
            ResourceRecord {
                name: Name(labels(&["www", "exämple", "org"])),
                resource_type: ResourceType::A,
                resource_class: ResourceClass::Internet,
                ttl: 0xffff_ffff,
                rdata: ResourceData::A(0xc0a80001),
            },
            ResourceRecord {
                name: Name(vec![]),
                resource_type: ResourceType::AAAA,
                resource_class: ResourceClass::Unknown(3),
                ttl: 7,
                rdata: ResourceData::AAAA(u128::MAX - 5),
            },
        ],
    };
    let mut buffer = Vec::new();
    encode_message(&m, &mut buffer);
    assert_eq!(decode_message(&buffer), Ok(m));
}

#[test]
fn pointer_to_an_earlier_offset_inside_the_same_name_is_followed() {
    // The label "a\0", then at offset 3 a pointer to offset 2, where the
    // empty name (a single zero byte) stands.
    let frame = hex::decode("026100c002").unwrap();
    let (rest, decoded) = name(DnsFrameInput::new(&frame)).unwrap();
    assert_eq!(decoded, vec![String::from("a\0")]);
    assert_eq!(rest.input, &b""[..]);
    assert_eq!(rest.frame.len() - rest.input.len(), 5);
}

//! Building the request that asks for one name.
use vstd::prelude::*;
use vstd::utf8::encode_utf8;

use crate::domain_name::{decode_domain_name, dotted_name, str_views};
use crate::error::DecodeError;
use crate::header::{
    AuthoritativeAnswer, Flags, MessageHeader, Opcode, QR, Rcode, RecursionAvailable,
    RecursionDesired, Truncated,
};
use crate::message::{Message, MessageView};
use crate::name::{
    is_valid_label, is_valid_name, label_bytes, lemma_labels_bytes_push,
    name_bytes, Name, MAX_LABEL_LEN, MAX_NAME_LEN,
};
use crate::query::{Query, QueryClass, QueryType, QueryView};

verus! {

/// The header of a standard query that asks for recursion.
pub open spec fn request_header(message_id: u16) -> MessageHeader {
    MessageHeader {
        message_id,
        flags: Flags {
            qr: QR::Query,
            opcode: Opcode::Query,
            aa: AuthoritativeAnswer::NonAuthoritative,
            truncated: Truncated::NotTruncated,
            recursion_desired: RecursionDesired::Desired,
            recursion_available: RecursionAvailable::NotAvailable,
            rcode: Rcode::NoError,
        },
        query_count: 1,
        answer_count: 0,
        name_server_count: 0,
        additional_count: 0,
    }
}

/// The request for records of `query_type` of the name `labels`, in the
/// Internet class.
pub open spec fn request_view(
    labels: Seq<Seq<char>>,
    query_type: QueryType,
    message_id: u16,
) -> MessageView {
    MessageView {
        header: request_header(message_id),
        queries: seq![QueryView { name: labels, query_type, query_class: QueryClass::Internet }],
        answers: Seq::empty(),
    }
}

/// Builds the request for the dotted name at the start of `domain_name`.
/// It fails when the text holds no name, or a name that the wire cannot
/// carry (a label over 63 bytes, or over 255 bytes in all).
pub fn create_message(domain_name: &str, query_type: QueryType, message_id: u16) -> (r: Result<
    Message,
    DecodeError,
>)
    ensures
        match dotted_name(domain_name@) {
            Err(e) => r == Err::<Message, DecodeError>(e),
            Ok((_, labels)) => if is_valid_name(labels) {
                r matches Ok(m) && m@ == request_view(labels, query_type, message_id)
            } else {
                r == Err::<Message, DecodeError>(DecodeError::MalformedName)
            },
        },
{
    let parts = decode_domain_name(domain_name)?;
    let ghost labels = str_views(parts@);
    let n = parts.len();
    let mut names: Vec<String> = Vec::new();
    let mut total: usize = 1;
    let mut i: usize = 0;
    proof {
        assert(labels.take(0) =~= Seq::<Seq<char>>::empty());
        assert(names@.map_values(|s: String| s@) =~= labels.take(0));
    }
    while i < n
        invariant
            n == parts@.len(),
            labels == str_views(parts@),
            dotted_name(domain_name@) is Ok,
            dotted_name(domain_name@)->Ok_0.1 == labels,
            i <= n,
            total == name_bytes(labels.take(i as int)).len(),
            total <= MAX_NAME_LEN,
            names@.map_values(|s: String| s@) == labels.take(i as int),
            forall|k: int| 0 <= k < i ==> is_valid_label(#[trigger] labels[k]),
        decreases n - i,
    {
        let part = parts[i];
        let size = part.as_bytes().len();
        proof {
            assert(labels[i as int] == part@);
            assert(size == encode_utf8(part@).len());
            assert(label_bytes(part@).len() == 1 + size);
            lemma_labels_bytes_push(labels.take(i as int), part@);
            assert(labels.take(i + 1) =~= labels.take(i as int).push(part@));
        }
        if size == 0 || size > MAX_LABEL_LEN || total + 1 + size > MAX_NAME_LEN {
            proof {
                if size == 0 || size > MAX_LABEL_LEN {
                    assert(!is_valid_label(labels[i as int]));
                } else {
                    lemma_name_len_grows(labels, i as int + 1);
                }
                assert(!is_valid_name(labels));
            }
            return Err(DecodeError::MalformedName);
        }
        let ghost before = names@.map_values(|s: String| s@);
        names.push(part.to_owned());
        proof {
            assert(names@.map_values(|s: String| s@) =~= before.push(part@));
        }
        total = total + 1 + size;
        i = i + 1;
    }
    proof {
        assert(labels.take(n as int) =~= labels);
        assert(is_valid_name(labels));
    }
    let m = Message {
        header: MessageHeader {
            message_id,
            flags: Flags {
                qr: QR::Query,
                opcode: Opcode::Query,
                aa: AuthoritativeAnswer::NonAuthoritative,
                truncated: Truncated::NotTruncated,
                recursion_desired: RecursionDesired::Desired,
                recursion_available: RecursionAvailable::NotAvailable,
                rcode: Rcode::NoError,
            },
            query_count: 1,
            answer_count: 0,
            name_server_count: 0,
            additional_count: 0,
        },
        queries: vec![Query { name: Name(names), query_type, query_class: QueryClass::Internet }],
        answers: Vec::new(),
    };
    proof {
        let v = request_view(labels, query_type, message_id);
        assert(m.queries@[0]@ == v.queries[0]);
        assert(m@.queries =~= v.queries);
        assert(m@.answers =~= v.answers);
    }
    Ok(m)
}

/// The wire length of a name is at least that of any of its prefixes.
proof fn lemma_name_len_grows(labels: Seq<Seq<char>>, k: int)
    requires
        0 <= k <= labels.len(),
    ensures
        name_bytes(labels.take(k)).len() <= name_bytes(labels).len(),
    decreases labels.len() - k,
{
    if k < labels.len() {
        lemma_labels_bytes_push(labels.take(k), labels[k]);
        assert(labels.take(k + 1) =~= labels.take(k).push(labels[k]));
        lemma_name_len_grows(labels, k + 1);
    } else {
        assert(labels.take(k) =~= labels);
    }
}

} // verus!

//! Decoding and encoding of DNS messages in their binary wire form.
//!
//! Every decoder is a total function on bytes: it gives either the value
//! that the wire grammar (stated as spec functions beside each decoder)
//! assigns to the input, or the error that the grammar assigns to it. Name
//! decompression follows only pointers whose target lies strictly before the
//! pointer, and names are capped at 255 bytes, so it always terminates. A decoded
//! name is always the resolved sequence of its labels: no pointer survives
//! decoding. The encoders write names without compression.

pub mod bytes;
pub mod domain_name;
pub mod error;
pub mod header;
pub mod input;
pub mod message;
pub mod name;
pub mod query;
pub mod request;
pub mod resource_record;

pub use domain_name::{decode_domain_name, decode_domain_name_inner};
pub use error::DecodeError;
pub use header::{
    encode_message_header, message_header, AuthoritativeAnswer, Flags, MessageHeader, Opcode,
    Rcode, RecursionAvailable, RecursionDesired, Truncated, QR,
};
pub use input::DnsFrameInput;
pub use message::{decode_message, encode_message, message, Message};
pub use name::{name, name_label, Name};
pub use query::{encode_query, query, Query, QueryClass, QueryType};
pub use request::create_message;
pub use resource_record::{
    encode_resource_record, resource_record, ResourceClass, ResourceData, ResourceRecord,
    ResourceType,
};

//! Resource records: a name, fixed fields, and a payload whose layout the
//! record's type selects and whose length the record declares.
use vstd::prelude::*;

use crate::bytes::{
    be_at, be_bytes, lemma_be_round_trip, lemma_pow256_values, push_be, read_be,
};
use crate::error::DecodeError;
use crate::input::DnsFrameInput;
use crate::name::{
    encode_name, is_encodable_name, is_valid_name, lemma_name_bytes_decode, lemma_name_walk_end,
    name, name_at,
    name_bytes, Name,
};

verus! {

/// One record of the answer section.
#[derive(Debug, PartialEq)]
pub struct ResourceRecord {
    pub name: Name,
    pub resource_type: ResourceType,
    pub resource_class: ResourceClass,
    pub ttl: u32,
    pub rdata: ResourceData,
}

/// A record as plain values.
pub struct RecordView {
    pub name: Seq<Seq<char>>,
    pub resource_type: ResourceType,
    pub resource_class: ResourceClass,
    pub ttl: u32,
    pub rdata: ResourceData,
}

impl View for ResourceRecord {
    type V = RecordView;

    open spec fn view(&self) -> RecordView {
        RecordView {
            name: self.name@,
            resource_type: self.resource_type,
            resource_class: self.resource_class,
            ttl: self.ttl,
            rdata: self.rdata,
        }
    }
}

/// The type of a record; a code without a name is kept as `Unknown(code)`.
#[derive(Debug, PartialEq, Eq, Copy, Clone, Structural)]
pub enum ResourceType {
    A,
    NS,
    CNAME,
    SOA,
    WKS,
    PTR,
    MX,
    SRV,
    AAAA,
    Unknown(u16),
}

/// The class of a record; a code other than Internet is kept as `Unknown(code)`.
#[derive(Debug, PartialEq, Eq, Copy, Clone, Structural)]
pub enum ResourceClass {
    Internet,
    Unknown(u16),
}

/// The decoded payload of a record whose type has a payload decoder.
#[derive(Debug, PartialEq, Eq, Copy, Clone, Structural)]
pub enum ResourceData {
    /// An IPv4 address, as the big-endian number of its four bytes.
    A(u32),
    /// An IPv6 address, as the big-endian number of its sixteen bytes.
    AAAA(u128),
}

pub open spec fn resource_type_of(c: u16) -> ResourceType {
    if c == 1 {
        ResourceType::A
    } else if c == 2 {
        ResourceType::NS
    } else if c == 5 {
        ResourceType::CNAME
    } else if c == 6 {
        ResourceType::SOA
    } else if c == 11 {
        ResourceType::WKS
    } else if c == 12 {
        ResourceType::PTR
    } else if c == 15 {
        ResourceType::MX
    } else if c == 33 {
        ResourceType::SRV
    } else if c == 28 {
        ResourceType::AAAA
    } else {
        ResourceType::Unknown(c)
    }
}

pub open spec fn resource_type_code(t: ResourceType) -> u16 {
    match t {
        ResourceType::A => 1,
        ResourceType::NS => 2,
        ResourceType::CNAME => 5,
        ResourceType::SOA => 6,
        ResourceType::WKS => 11,
        ResourceType::PTR => 12,
        ResourceType::MX => 15,
        ResourceType::SRV => 33,
        ResourceType::AAAA => 28,
        ResourceType::Unknown(c) => c,
    }
}

pub open spec fn resource_class_of(c: u16) -> ResourceClass {
    if c == 1 {
        ResourceClass::Internet
    } else {
        ResourceClass::Unknown(c)
    }
}

pub open spec fn resource_class_code(c: ResourceClass) -> u16 {
    match c {
        ResourceClass::Internet => 1,
        ResourceClass::Unknown(c) => c,
    }
}

impl ResourceType {
    pub fn from_code(c: u16) -> (r: ResourceType)
        ensures
            r == resource_type_of(c),
    {
        match c {
            1 => ResourceType::A,
            2 => ResourceType::NS,
            5 => ResourceType::CNAME,
            6 => ResourceType::SOA,
            11 => ResourceType::WKS,
            12 => ResourceType::PTR,
            15 => ResourceType::MX,
            33 => ResourceType::SRV,
            28 => ResourceType::AAAA,
            u => ResourceType::Unknown(u),
        }
    }

    pub fn code(self) -> (r: u16)
        ensures
            r == resource_type_code(self),
    {
        match self {
            ResourceType::A => 1,
            ResourceType::NS => 2,
            ResourceType::CNAME => 5,
            ResourceType::SOA => 6,
            ResourceType::WKS => 11,
            ResourceType::PTR => 12,
            ResourceType::MX => 15,
            ResourceType::SRV => 33,
            ResourceType::AAAA => 28,
            ResourceType::Unknown(u) => u,
        }
    }
}

impl ResourceClass {
    pub fn from_code(c: u16) -> (r: ResourceClass)
        ensures
            r == resource_class_of(c),
    {
        match c {
            1 => ResourceClass::Internet,
            u => ResourceClass::Unknown(u),
        }
    }

    pub fn code(self) -> (r: u16)
        ensures
            r == resource_class_code(self),
    {
        match self {
            ResourceClass::Internet => 1,
            ResourceClass::Unknown(u) => u,
        }
    }

    /// `Unknown` does not hold the Internet class's code.
    pub open spec fn is_canonical(self) -> bool {
        resource_class_of(resource_class_code(self)) == self
    }
}

impl RecordView {
    /// A record that encodes and decodes back to itself: its type is the
    /// one of its payload.
    pub open spec fn is_valid(self) -> bool {
        &&& is_valid_name(self.name)
        &&& self.resource_class.is_canonical()
        &&& match self.rdata {
            ResourceData::A(_) => self.resource_type == ResourceType::A,
            ResourceData::AAAA(_) => self.resource_type == ResourceType::AAAA,
        }
    }
}

/// The payload of `len` bytes at offset `start` of `frame`, for a record of
/// type `t`. An A payload is exactly 4 bytes and an AAAA payload exactly 16;
/// any other type is unsupported, and the error tells where the record ends.
pub open spec fn parse_rdata(frame: Seq<u8>, start: int, len: int, t: ResourceType) -> Result<
    ResourceData,
    DecodeError,
> {
    match t {
        ResourceType::A => if len != 4 {
            Err(DecodeError::RdataLengthMismatch)
        } else {
            Ok(ResourceData::A(be_at(frame, start, 4) as u32))
        },
        ResourceType::AAAA => if len != 16 {
            Err(DecodeError::RdataLengthMismatch)
        } else {
            Ok(ResourceData::AAAA(be_at(frame, start, 16) as u128))
        },
        _ => Err(
            DecodeError::UnsupportedType {
                code: resource_type_code(t),
                next_record: (start + len) as usize,
            },
        ),
    }
}

/// The record at offset `pos` of `frame`: a name, then type, class, ttl and
/// payload length, big-endian, then the payload.
pub open spec fn parse_record(frame: Seq<u8>, pos: int) -> Result<(int, RecordView), DecodeError> {
    match name_at(frame, pos) {
        Err(e) => Err(e),
        Ok((p, labels)) => {
            if p + 10 > frame.len() {
                Err(DecodeError::Truncated)
            } else {
                let code = be_at(frame, p, 2) as u16;
                let start = p + 10;
                let end = start + be_at(frame, p + 8, 2);
                if end > frame.len() {
                    Err(DecodeError::Truncated)
                } else {
                    match parse_rdata(frame, start, end - start, resource_type_of(code)) {
                        Err(e) => Err(e),
                        Ok(rdata) => Ok(
                            (
                                end,
                                RecordView {
                                    name: labels,
                                    resource_type: resource_type_of(code),
                                    resource_class: resource_class_of(
                                        be_at(frame, p + 2, 2) as u16,
                                    ),
                                    ttl: be_at(frame, p + 4, 4) as u32,
                                    rdata,
                                },
                            ),
                        ),
                    }
                }
            }
        }
    }
}

/// The payload bytes of `d`.
pub open spec fn rdata_bytes(d: ResourceData) -> Seq<u8> {
    match d {
        ResourceData::A(v) => be_bytes(v as nat, 4),
        ResourceData::AAAA(v) => be_bytes(v as nat, 16),
    }
}

/// The wire form of a record.
pub open spec fn record_bytes(r: RecordView) -> Seq<u8> {
    name_bytes(r.name) + be_bytes(resource_type_code(r.resource_type) as nat, 2) + be_bytes(
        resource_class_code(r.resource_class) as nat,
        2,
    ) + be_bytes(r.ttl as nat, 4) + be_bytes(rdata_bytes(r.rdata).len(), 2) + rdata_bytes(r.rdata)
}

/// Decodes the payload of `len` bytes at `start`, for a record of type `resource_type`.
pub fn resource_data(frame: &[u8], start: usize, len: usize, resource_type: ResourceType) -> (r:
    Result<ResourceData, DecodeError>)
    requires
        start + len <= frame@.len(),
    ensures
        r == parse_rdata(frame@, start as int, len as int, resource_type),
{
    let frame_len = frame.len();
    proof {
        lemma_pow256_values();
        assert(start + len <= frame_len);
    }
    match resource_type {
        ResourceType::A => {
            if len != 4 {
                Err(DecodeError::RdataLengthMismatch)
            } else {
                Ok(ResourceData::A(read_be(frame, start, 4) as u32))
            }
        },
        ResourceType::AAAA => {
            if len != 16 {
                Err(DecodeError::RdataLengthMismatch)
            } else {
                Ok(ResourceData::AAAA(read_be(frame, start, 16)))
            }
        },
        _ => Err(
            DecodeError::UnsupportedType { code: resource_type.code(), next_record: start + len },
        ),
    }
}

/// Decodes the record at the cursor. The cursor that comes back stands just
/// past the declared payload.
pub fn resource_record<'a>(input: DnsFrameInput<'a>) -> (r: Result<
    (DnsFrameInput<'a>, ResourceRecord),
    DecodeError,
>)
    requires
        input.wf(),
    ensures
        match parse_record(input.frame@, input.pos()) {
            Ok((end, rec)) => r matches Ok((rest, v)) && rest.frame == input.frame && rest.wf()
                && rest.pos() == end && v@ == rec,
            Err(e) => r == Err::<(DnsFrameInput<'a>, ResourceRecord), DecodeError>(e),
        },
{
    let (input, labels) = name(input)?;
    let frame = input.frame;
    let len = frame.len();
    let pos = input.offset();
    if len - pos < 10 {
        return Err(DecodeError::Truncated);
    }
    proof {
        lemma_pow256_values();
    }
    let code = read_be(frame, pos, 2) as u16;
    let class = read_be(frame, pos + 2, 2) as u16;
    let ttl = read_be(frame, pos + 4, 4) as u32;
    let rdlength = read_be(frame, pos + 8, 2) as usize;
    let start = pos + 10;
    if rdlength > len - start {
        return Err(DecodeError::Truncated);
    }
    let resource_type = ResourceType::from_code(code);
    let rdata = resource_data(frame, start, rdlength, resource_type)?;
    Ok(
        (
            input.at(start + rdlength),
            ResourceRecord {
                name: Name(labels),
                resource_type,
                resource_class: ResourceClass::from_code(class),
                ttl,
                rdata,
            },
        ),
    )
}

/// Appends the wire form of `r`, its payload length included; its name is
/// written without compression.
pub fn encode_resource_record(r: &ResourceRecord, out: &mut Vec<u8>)
    requires
        is_encodable_name(r.name@),
    ensures
        final(out)@ == old(out)@ + record_bytes(r@),
{
    encode_name(&r.name, out);
    push_be(out, r.resource_type.code() as u128, 2);
    push_be(out, r.resource_class.code() as u128, 2);
    push_be(out, r.ttl as u128, 4);
    match r.rdata {
        ResourceData::A(v) => {
            push_be(out, 4, 2);
            push_be(out, v as u128, 4);
            proof {
                crate::bytes::lemma_be_bytes_len(v as nat, 4);
            }
        },
        ResourceData::AAAA(v) => {
            push_be(out, 16, 2);
            push_be(out, v, 16);
            proof {
                crate::bytes::lemma_be_bytes_len(v as nat, 16);
            }
        },
    }
    proof {
        assert(out@ =~= old(out)@ + record_bytes(r@));
    }
}

/// Unsupported-type skip: a record whose type has no payload decoder fails,
/// after its declared payload length has been honoured: the error gives the
/// type code and the offset just past the payload, where the next record
/// starts.
pub proof fn lemma_unsupported_type_skips(frame: Seq<u8>, pos: int)
    requires
        name_at(frame, pos) is Ok,
        ({
            let p = name_at(frame, pos)->Ok_0.0;
            &&& p + 10 <= frame.len()
            &&& p + 10 + be_at(frame, p + 8, 2) <= frame.len()
            &&& be_at(frame, p, 2) != 1
            &&& be_at(frame, p, 2) != 28
        }),
    ensures
        ({
            let p = name_at(frame, pos)->Ok_0.0;
            parse_record(frame, pos) == Err::<(int, RecordView), DecodeError>(
                DecodeError::UnsupportedType {
                    code: be_at(frame, p, 2) as u16,
                    next_record: (p + 10 + be_at(frame, p + 8, 2)) as usize,
                },
            )
        }),
{
    let p = name_at(frame, pos)->Ok_0.0;
    lemma_name_walk_end(frame, pos, 0);
    crate::bytes::lemma_be_value_bound(frame.subrange(p, p + 2));
    crate::bytes::lemma_be_value_bound(frame.subrange(p + 8, p + 10));
    lemma_pow256_values();
}

/// The wire form of a valid record decodes to that record, wherever it
/// stands in the frame.
pub proof fn lemma_record_bytes_decode(frame: Seq<u8>, p: int, r: RecordView)
    requires
        r.is_valid(),
        0 <= p,
        p + record_bytes(r).len() <= frame.len(),
        frame.subrange(p, p + record_bytes(r).len()) == record_bytes(r),
    ensures
        parse_record(frame, p) == Ok::<(int, RecordView), DecodeError>(
            (p + record_bytes(r).len(), r),
        ),
{
    let rb = record_bytes(r);
    let nb = name_bytes(r.name);
    let n = nb.len() as int;
    let tc = resource_type_code(r.resource_type) as nat;
    let cc = resource_class_code(r.resource_class) as nat;
    let db = rdata_bytes(r.rdata);
    lemma_pow256_values();
    lemma_be_round_trip(tc, 2);
    lemma_be_round_trip(cc, 2);
    lemma_be_round_trip(r.ttl as nat, 4);
    match r.rdata {
        ResourceData::A(v) => lemma_be_round_trip(v as nat, 4),
        ResourceData::AAAA(v) => lemma_be_round_trip(v as nat, 16),
    }
    lemma_be_round_trip(db.len(), 2);
    assert(rb.subrange(0, n) =~= nb);
    assert(rb.subrange(n, n + 2) =~= be_bytes(tc, 2));
    assert(rb.subrange(n + 2, n + 4) =~= be_bytes(cc, 2));
    assert(rb.subrange(n + 4, n + 8) =~= be_bytes(r.ttl as nat, 4));
    assert(rb.subrange(n + 8, n + 10) =~= be_bytes(db.len(), 2));
    assert(rb.subrange(n + 10, n + 10 + db.len()) =~= db);
    crate::bytes::lemma_sub_window(frame, p, rb, 0, n);
    crate::bytes::lemma_sub_window(frame, p, rb, n, 2);
    crate::bytes::lemma_sub_window(frame, p, rb, n + 2, 2);
    crate::bytes::lemma_sub_window(frame, p, rb, n + 4, 4);
    crate::bytes::lemma_sub_window(frame, p, rb, n + 8, 2);
    crate::bytes::lemma_sub_window(frame, p, rb, n + 10, db.len() as int);
    lemma_name_bytes_decode(frame, p, 0, r.name);
}

} // verus!

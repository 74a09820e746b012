//! The question section: a name, a query type and a query class.
use vstd::prelude::*;

use crate::bytes::{
    be_at, be_bytes, lemma_be_round_trip, lemma_pow256_values, lemma_sub_window, push_be, read_be,
};
use crate::error::DecodeError;
use crate::input::DnsFrameInput;
use crate::name::{
    encode_name, is_encodable_name, is_valid_name, lemma_name_bytes_decode, name, name_at,
    name_bytes, Name,
};

verus! {

/// One entry of the question section.
#[derive(Debug, PartialEq)]
pub struct Query {
    pub name: Name,
    pub query_type: QueryType,
    pub query_class: QueryClass,
}

/// A query as plain values: its labels, type and class.
pub struct QueryView {
    pub name: Seq<Seq<char>>,
    pub query_type: QueryType,
    pub query_class: QueryClass,
}

impl View for Query {
    type V = QueryView;

    open spec fn view(&self) -> QueryView {
        QueryView { name: self.name@, query_type: self.query_type, query_class: self.query_class }
    }
}

/// The type of record asked for; a code without a name is kept as `Unknown(code)`.
#[derive(Debug, PartialEq, Eq, Clone, Copy, Structural)]
pub enum QueryType {
    A,
    NS,
    CNAME,
    SOA,
    WKS,
    PTR,
    MX,
    SRV,
    AAAA,
    ANY,
    Unknown(u16),
}

/// The class asked for; a code other than Internet is kept as `Unknown(code)`.
#[derive(Debug, PartialEq, Eq, Clone, Copy, Structural)]
pub enum QueryClass {
    Internet,
    Unknown(u16),
}

pub open spec fn query_type_of(c: u16) -> QueryType {
    if c == 1 {
        QueryType::A
    } else if c == 2 {
        QueryType::NS
    } else if c == 5 {
        QueryType::CNAME
    } else if c == 6 {
        QueryType::SOA
    } else if c == 11 {
        QueryType::WKS
    } else if c == 12 {
        QueryType::PTR
    } else if c == 15 {
        QueryType::MX
    } else if c == 33 {
        QueryType::SRV
    } else if c == 28 {
        QueryType::AAAA
    } else if c == 255 {
        QueryType::ANY
    } else {
        QueryType::Unknown(c)
    }
}

pub open spec fn query_type_code(t: QueryType) -> u16 {
    match t {
        QueryType::A => 1,
        QueryType::NS => 2,
        QueryType::CNAME => 5,
        QueryType::SOA => 6,
        QueryType::WKS => 11,
        QueryType::PTR => 12,
        QueryType::MX => 15,
        QueryType::SRV => 33,
        QueryType::AAAA => 28,
        QueryType::ANY => 255,
        QueryType::Unknown(c) => c,
    }
}

pub open spec fn query_class_of(c: u16) -> QueryClass {
    if c == 1 {
        QueryClass::Internet
    } else {
        QueryClass::Unknown(c)
    }
}

pub open spec fn query_class_code(c: QueryClass) -> u16 {
    match c {
        QueryClass::Internet => 1,
        QueryClass::Unknown(c) => c,
    }
}

impl QueryType {
    pub fn from_code(c: u16) -> (r: QueryType)
        ensures
            r == query_type_of(c),
    {
        match c {
            1 => QueryType::A,
            2 => QueryType::NS,
            5 => QueryType::CNAME,
            6 => QueryType::SOA,
            11 => QueryType::WKS,
            12 => QueryType::PTR,
            15 => QueryType::MX,
            33 => QueryType::SRV,
            28 => QueryType::AAAA,
            255 => QueryType::ANY,
            u => QueryType::Unknown(u),
        }
    }

    pub fn code(self) -> (r: u16)
        ensures
            r == query_type_code(self),
    {
        match self {
            QueryType::A => 1,
            QueryType::NS => 2,
            QueryType::CNAME => 5,
            QueryType::SOA => 6,
            QueryType::WKS => 11,
            QueryType::PTR => 12,
            QueryType::MX => 15,
            QueryType::SRV => 33,
            QueryType::AAAA => 28,
            QueryType::ANY => 255,
            QueryType::Unknown(u) => u,
        }
    }

    /// `Unknown` holds no code that has a name.
    pub open spec fn is_canonical(self) -> bool {
        query_type_of(query_type_code(self)) == self
    }
}

impl QueryClass {
    pub fn from_code(c: u16) -> (r: QueryClass)
        ensures
            r == query_class_of(c),
    {
        match c {
            1 => QueryClass::Internet,
            u => QueryClass::Unknown(u),
        }
    }

    pub fn code(self) -> (r: u16)
        ensures
            r == query_class_code(self),
    {
        match self {
            QueryClass::Internet => 1,
            QueryClass::Unknown(u) => u,
        }
    }

    /// `Unknown` does not hold the Internet class's code.
    pub open spec fn is_canonical(self) -> bool {
        query_class_of(query_class_code(self)) == self
    }
}

impl QueryView {
    /// A query that encodes and decodes back to itself.
    pub open spec fn is_valid(self) -> bool {
        is_valid_name(self.name) && self.query_type.is_canonical()
            && self.query_class.is_canonical()
    }
}

/// The query at offset `pos` of `frame`: a name, then its type and class,
/// each a big-endian 16-bit code.
pub open spec fn parse_query(frame: Seq<u8>, pos: int) -> Result<(int, QueryView), DecodeError> {
    match name_at(frame, pos) {
        Err(e) => Err(e),
        Ok((p, labels)) => {
            if p + 4 > frame.len() {
                Err(DecodeError::Truncated)
            } else {
                Ok(
                    (
                        p + 4,
                        QueryView {
                            name: labels,
                            query_type: query_type_of(be_at(frame, p, 2) as u16),
                            query_class: query_class_of(be_at(frame, p + 2, 2) as u16),
                        },
                    ),
                )
            }
        }
    }
}

/// The wire form of a query.
pub open spec fn query_bytes(q: QueryView) -> Seq<u8> {
    name_bytes(q.name) + be_bytes(query_type_code(q.query_type) as nat, 2) + be_bytes(
        query_class_code(q.query_class) as nat,
        2,
    )
}

/// Decodes the query at the cursor.
pub fn query<'a>(input: DnsFrameInput<'a>) -> (r: Result<(DnsFrameInput<'a>, Query), DecodeError>)
    requires
        input.wf(),
    ensures
        match parse_query(input.frame@, input.pos()) {
            Ok((end, q)) => r matches Ok((rest, v)) && rest.frame == input.frame && rest.wf()
                && rest.pos() == end && v@ == q,
            Err(e) => r == Err::<(DnsFrameInput<'a>, Query), DecodeError>(e),
        },
{
    let (input, labels) = name(input)?;
    let frame = input.frame;
    let pos = input.offset();
    if frame.len() - pos < 4 {
        return Err(DecodeError::Truncated);
    }
    proof {
        lemma_pow256_values();
    }
    let query_type = QueryType::from_code(read_be(frame, pos, 2) as u16);
    let query_class = QueryClass::from_code(read_be(frame, pos + 2, 2) as u16);
    Ok((input.at(pos + 4), Query { name: Name(labels), query_type, query_class }))
}

/// Appends the wire form of `q`; its name is written without compression.
pub fn encode_query(q: &Query, out: &mut Vec<u8>)
    requires
        is_encodable_name(q.name@),
    ensures
        final(out)@ == old(out)@ + query_bytes(q@),
{
    encode_name(&q.name, out);
    push_be(out, q.query_type.code() as u128, 2);
    push_be(out, q.query_class.code() as u128, 2);
    proof {
        assert(out@ =~= old(out)@ + query_bytes(q@));
    }
}

/// The wire form of a valid query decodes to that query, wherever it stands
/// in the frame.
pub proof fn lemma_query_bytes_decode(frame: Seq<u8>, p: int, q: QueryView)
    requires
        q.is_valid(),
        0 <= p,
        p + query_bytes(q).len() <= frame.len(),
        frame.subrange(p, p + query_bytes(q).len()) == query_bytes(q),
    ensures
        parse_query(frame, p) == Ok::<(int, QueryView), DecodeError>((p + query_bytes(q).len(), q)),
{
    let nb = name_bytes(q.name);
    let qb = query_bytes(q);
    let tc = query_type_code(q.query_type) as nat;
    let cc = query_class_code(q.query_class) as nat;
    lemma_pow256_values();
    lemma_be_round_trip(tc, 2);
    lemma_be_round_trip(cc, 2);
    let n = nb.len() as int;
    assert(qb.subrange(0, n) =~= nb);
    assert(qb.subrange(n, n + 2) =~= be_bytes(tc, 2));
    assert(qb.subrange(n + 2, n + 4) =~= be_bytes(cc, 2));
    lemma_sub_window(frame, p, qb, 0, n);
    lemma_sub_window(frame, p, qb, n, 2);
    lemma_sub_window(frame, p, qb, n + 2, 2);
    lemma_name_bytes_decode(frame, p, 0, q.name);
}

} // verus!

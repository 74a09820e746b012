//! The fixed twelve-byte message header and its bit-packed flags word.
use vstd::prelude::*;

use crate::bytes::{
    be_at, be_bytes, lemma_be_round_trip, lemma_pow256_values, lemma_sub_window, push_be, read_be,
};
use crate::error::DecodeError;

verus! {

/// Length of the header on the wire.
pub const HEADER_LEN: usize = 12;

/// The header of a DNS message.
#[derive(Debug, Clone, Copy, PartialEq, Eq, Structural)]
pub struct MessageHeader {
    pub message_id: u16,
    pub flags: Flags,
    pub query_count: u16,
    pub answer_count: u16,
    pub name_server_count: u16,
    pub additional_count: u16,
}

/// The sub-fields of the second header word. Its three reserved bits are
/// not kept: they are ignored when decoding and written as zero.
#[derive(Debug, Clone, Copy, PartialEq, Eq, Structural)]
pub struct Flags {
    pub qr: QR,
    pub opcode: Opcode,
    pub aa: AuthoritativeAnswer,
    pub truncated: Truncated,
    pub recursion_desired: RecursionDesired,
    pub recursion_available: RecursionAvailable,
    pub rcode: Rcode,
}

#[derive(Debug, Clone, Copy, PartialEq, Eq, Structural)]
pub enum QR {
    Query,
    Response,
}

/// The kind of query; a code without a name is kept as `Unknown(code)`.
#[derive(Debug, Clone, Copy, PartialEq, Eq, Structural)]
pub enum Opcode {
    Query,
    IQuery,
    Status,
    Unknown(u8),
}

#[derive(Debug, Clone, Copy, PartialEq, Eq, Structural)]
pub enum AuthoritativeAnswer {
    Authoritative,
    NonAuthoritative,
}

#[derive(Debug, Clone, Copy, PartialEq, Eq, Structural)]
pub enum Truncated {
    Truncated,
    NotTruncated,
}

#[derive(Debug, Clone, Copy, PartialEq, Eq, Structural)]
pub enum RecursionDesired {
    Desired,
    NotDesired,
}

#[derive(Debug, Clone, Copy, PartialEq, Eq, Structural)]
pub enum RecursionAvailable {
    Available,
    NotAvailable,
}

/// The response code; a code without a name is kept as `Unknown(code)`.
#[derive(Debug, Clone, Copy, PartialEq, Eq, Structural)]
pub enum Rcode {
    NoError,
    FormatError,
    ServerFailure,
    NameError,
    NotImplemented,
    Refused,
    Unknown(u8),
}

pub open spec fn opcode_of(c: u8) -> Opcode {
    if c == 0 {
        Opcode::Query
    } else if c == 1 {
        Opcode::IQuery
    } else if c == 2 {
        Opcode::Status
    } else {
        Opcode::Unknown(c)
    }
}

pub open spec fn opcode_code(o: Opcode) -> u8 {
    match o {
        Opcode::Query => 0,
        Opcode::IQuery => 1,
        Opcode::Status => 2,
        Opcode::Unknown(c) => c,
    }
}

pub open spec fn rcode_of(c: u8) -> Rcode {
    if c == 0 {
        Rcode::NoError
    } else if c == 1 {
        Rcode::FormatError
    } else if c == 2 {
        Rcode::ServerFailure
    } else if c == 3 {
        Rcode::NameError
    } else if c == 4 {
        Rcode::NotImplemented
    } else if c == 5 {
        Rcode::Refused
    } else {
        Rcode::Unknown(c)
    }
}

pub open spec fn rcode_code(r: Rcode) -> u8 {
    match r {
        Rcode::NoError => 0,
        Rcode::FormatError => 1,
        Rcode::ServerFailure => 2,
        Rcode::NameError => 3,
        Rcode::NotImplemented => 4,
        Rcode::Refused => 5,
        Rcode::Unknown(c) => c,
    }
}

impl Opcode {
    /// The opcode that a four-bit code stands for.
    pub fn from_code(c: u8) -> (r: Opcode)
        ensures
            r == opcode_of(c),
    {
        match c {
            0 => Opcode::Query,
            1 => Opcode::IQuery,
            2 => Opcode::Status,
            _ => Opcode::Unknown(c),
        }
    }

    pub fn code(self) -> (r: u8)
        ensures
            r == opcode_code(self),
    {
        match self {
            Opcode::Query => 0,
            Opcode::IQuery => 1,
            Opcode::Status => 2,
            Opcode::Unknown(c) => c,
        }
    }

    /// A four-bit code that no named opcode has: decoding gives it back.
    pub open spec fn is_canonical(self) -> bool {
        match self {
            Opcode::Unknown(c) => 3 <= c < 16,
            _ => true,
        }
    }
}

impl Rcode {
    /// The response code that a four-bit code stands for.
    pub fn from_code(c: u8) -> (r: Rcode)
        ensures
            r == rcode_of(c),
    {
        match c {
            0 => Rcode::NoError,
            1 => Rcode::FormatError,
            2 => Rcode::ServerFailure,
            3 => Rcode::NameError,
            4 => Rcode::NotImplemented,
            5 => Rcode::Refused,
            _ => Rcode::Unknown(c),
        }
    }

    pub fn code(self) -> (r: u8)
        ensures
            r == rcode_code(self),
    {
        match self {
            Rcode::NoError => 0,
            Rcode::FormatError => 1,
            Rcode::ServerFailure => 2,
            Rcode::NameError => 3,
            Rcode::NotImplemented => 4,
            Rcode::Refused => 5,
            Rcode::Unknown(c) => c,
        }
    }

    /// A four-bit code that no named response code has.
    pub open spec fn is_canonical(self) -> bool {
        match self {
            Rcode::Unknown(c) => 6 <= c < 16,
            _ => true,
        }
    }
}

impl Flags {
    /// Flags whose opcode and response code fit their four bits.
    pub open spec fn is_encodable(self) -> bool {
        opcode_code(self.opcode) < 16 && rcode_code(self.rcode) < 16
    }

    /// Flags that the flags word can carry unchanged through an encode and a decode.
    pub open spec fn is_canonical(self) -> bool {
        self.opcode.is_canonical() && self.rcode.is_canonical()
    }
}

/// The flags that a flags word holds, most significant bit first:
/// qr (1 bit), opcode (4), aa, tc, rd, ra (1 each), reserved (3), rcode (4).
pub open spec fn flags_of_word(w: u16) -> Flags {
    Flags {
        qr: if w & 0x8000 != 0 { QR::Response } else { QR::Query },
        opcode: opcode_of(((w >> 11u16) & 0xf) as u8),
        aa: if w & 0x0400 != 0 {
            AuthoritativeAnswer::Authoritative
        } else {
            AuthoritativeAnswer::NonAuthoritative
        },
        truncated: if w & 0x0200 != 0 { Truncated::Truncated } else { Truncated::NotTruncated },
        recursion_desired: if w & 0x0100 != 0 {
            RecursionDesired::Desired
        } else {
            RecursionDesired::NotDesired
        },
        recursion_available: if w & 0x0080 != 0 {
            RecursionAvailable::Available
        } else {
            RecursionAvailable::NotAvailable
        },
        rcode: rcode_of((w & 0xf) as u8),
    }
}

pub open spec fn bit(b: bool) -> u16 {
    if b { 1 } else { 0 }
}

/// The flags word that encodes `f`; the reserved bits are zero.
pub open spec fn flags_word(f: Flags) -> u16 {
    bit(f.qr == QR::Response) << 15u16
        | (opcode_code(f.opcode) as u16) << 11u16
        | bit(f.aa == AuthoritativeAnswer::Authoritative) << 10u16
        | bit(f.truncated == Truncated::Truncated) << 9u16
        | bit(f.recursion_desired == RecursionDesired::Desired) << 8u16
        | bit(f.recursion_available == RecursionAvailable::Available) << 7u16
        | (rcode_code(f.rcode) as u16)
}

/// The header that the first twelve bytes of `frame` hold, big-endian.
pub open spec fn header_of(frame: Seq<u8>) -> MessageHeader {
    MessageHeader {
        message_id: be_at(frame, 0, 2) as u16,
        flags: flags_of_word(be_at(frame, 2, 2) as u16),
        query_count: be_at(frame, 4, 2) as u16,
        answer_count: be_at(frame, 6, 2) as u16,
        name_server_count: be_at(frame, 8, 2) as u16,
        additional_count: be_at(frame, 10, 2) as u16,
    }
}

/// The twelve bytes that encode `h`.
pub open spec fn header_bytes(h: MessageHeader) -> Seq<u8> {
    be_bytes(h.message_id as nat, 2) + be_bytes(flags_word(h.flags) as nat, 2) + be_bytes(
        h.query_count as nat,
        2,
    ) + be_bytes(h.answer_count as nat, 2) + be_bytes(h.name_server_count as nat, 2) + be_bytes(
        h.additional_count as nat,
        2,
    )
}

/// Splits a flags word into its sub-fields; the reserved bits are ignored.
pub fn dns_flags(w: u16) -> (r: Flags)
    ensures
        r == flags_of_word(w),
{
    Flags {
        qr: if w & 0x8000 != 0 { QR::Response } else { QR::Query },
        opcode: Opcode::from_code(((w >> 11u16) & 0xf) as u8),
        aa: if w & 0x0400 != 0 {
            AuthoritativeAnswer::Authoritative
        } else {
            AuthoritativeAnswer::NonAuthoritative
        },
        truncated: if w & 0x0200 != 0 { Truncated::Truncated } else { Truncated::NotTruncated },
        recursion_desired: if w & 0x0100 != 0 {
            RecursionDesired::Desired
        } else {
            RecursionDesired::NotDesired
        },
        recursion_available: if w & 0x0080 != 0 {
            RecursionAvailable::Available
        } else {
            RecursionAvailable::NotAvailable
        },
        rcode: Rcode::from_code((w & 0xf) as u8),
    }
}

/// Packs the flags into their word, OR-ing each shifted field.
pub fn encode_flags(f: &Flags) -> (r: u16)
    requires
        f.is_encodable(),
    ensures
        r == flags_word(*f),
{
    let qr: u16 = match f.qr {
        QR::Query => 0,
        QR::Response => 1,
    };
    let aa: u16 = match f.aa {
        AuthoritativeAnswer::Authoritative => 1,
        AuthoritativeAnswer::NonAuthoritative => 0,
    };
    let tc: u16 = match f.truncated {
        Truncated::Truncated => 1,
        Truncated::NotTruncated => 0,
    };
    let rd: u16 = match f.recursion_desired {
        RecursionDesired::Desired => 1,
        RecursionDesired::NotDesired => 0,
    };
    let ra: u16 = match f.recursion_available {
        RecursionAvailable::Available => 1,
        RecursionAvailable::NotAvailable => 0,
    };
    let opcode = f.opcode.code() as u16;
    let rcode = f.rcode.code() as u16;
    qr << 15u16 | opcode << 11u16 | aa << 10u16 | tc << 9u16 | rd << 8u16 | ra << 7u16 | rcode
}

/// Decoding the flags word of canonical flags gives the same flags back.
pub proof fn lemma_flags_round_trip(f: Flags)
    requires
        f.is_canonical(),
    ensures
        flags_of_word(flags_word(f)) == f,
{
    let q = bit(f.qr == QR::Response);
    let o = opcode_code(f.opcode) as u16;
    let a = bit(f.aa == AuthoritativeAnswer::Authoritative);
    let t = bit(f.truncated == Truncated::Truncated);
    let d = bit(f.recursion_desired == RecursionDesired::Desired);
    let v = bit(f.recursion_available == RecursionAvailable::Available);
    let r = rcode_code(f.rcode) as u16;
    let w = flags_word(f);
    assert(((w & 0x8000 != 0) == (q == 1)) && ((w >> 11u16) & 0xf == o) && ((w & 0x0400 != 0)
        == (a == 1)) && ((w & 0x0200 != 0) == (t == 1)) && ((w & 0x0100 != 0) == (d == 1)) && ((w
        & 0x0080 != 0) == (v == 1)) && (w & 0xf == r)) by (bit_vector)
        requires
            w == q << 15u16 | o << 11u16 | a << 10u16 | t << 9u16 | d << 8u16 | v << 7u16 | r,
            q <= 1,
            o < 16,
            a <= 1,
            t <= 1,
            d <= 1,
            v <= 1,
            r < 16,
    ;
}

/// Toggling one of the qr, aa, tc, rd and ra bits of a flags word changes
/// that one flag of the decoded flags and leaves every other field as it was.
pub proof fn lemma_flag_bits_independent(w: u16)
    ensures
        ({
            let f = flags_of_word(w);
            let g = flags_of_word(w ^ 0x8000);
            g.qr != f.qr && g == Flags { qr: g.qr, ..f }
        }),
        ({
            let f = flags_of_word(w);
            let g = flags_of_word(w ^ 0x0400);
            g.aa != f.aa && g == Flags { aa: g.aa, ..f }
        }),
        ({
            let f = flags_of_word(w);
            let g = flags_of_word(w ^ 0x0200);
            g.truncated != f.truncated && g == Flags { truncated: g.truncated, ..f }
        }),
        ({
            let f = flags_of_word(w);
            let g = flags_of_word(w ^ 0x0100);
            g.recursion_desired != f.recursion_desired && g == Flags {
                recursion_desired: g.recursion_desired,
                ..f
            }
        }),
        ({
            let f = flags_of_word(w);
            let g = flags_of_word(w ^ 0x0080);
            g.recursion_available != f.recursion_available && g == Flags {
                recursion_available: g.recursion_available,
                ..f
            }
        }),
{
    assert forall|m: u16|
        m == 0x8000 || m == 0x0400 || m == 0x0200 || m == 0x0100 || m == 0x0080 implies ((w ^ m)
            >> 11u16) & 0xf == (w >> 11u16) & 0xf && (w ^ m) & 0xf == w & 0xf && ((w ^ m) & m
            != 0) != (w & m != 0) && (m != 0x8000 ==> ((w ^ m) & 0x8000 != 0) == (w & 0x8000 != 0))
            && (m != 0x0400 ==> ((w ^ m) & 0x0400 != 0) == (w & 0x0400 != 0)) && (m != 0x0200 ==> ((
        w ^ m) & 0x0200 != 0) == (w & 0x0200 != 0)) && (m != 0x0100 ==> ((w ^ m) & 0x0100 != 0) == (
        w & 0x0100 != 0)) && (m != 0x0080 ==> ((w ^ m) & 0x0080 != 0) == (w & 0x0080 != 0)) by {
        assert(m == 0x8000 || m == 0x0400 || m == 0x0200 || m == 0x0100 || m == 0x0080 ==> ((w
            ^ m) >> 11u16) & 0xf == (w >> 11u16) & 0xf && (w ^ m) & 0xf == w & 0xf && ((w ^ m) & m
            != 0) != (w & m != 0) && (m != 0x8000 ==> ((w ^ m) & 0x8000 != 0) == (w & 0x8000 != 0))
            && (m != 0x0400 ==> ((w ^ m) & 0x0400 != 0) == (w & 0x0400 != 0)) && (m != 0x0200 ==> ((
        w ^ m) & 0x0200 != 0) == (w & 0x0200 != 0)) && (m != 0x0100 ==> ((w ^ m) & 0x0100 != 0)
            == (w & 0x0100 != 0)) && (m != 0x0080 ==> ((w ^ m) & 0x0080 != 0) == (w & 0x0080 != 0)))
            by (bit_vector);
    }
    assert(((w ^ 0x8000) & 0x8000 != 0) != (w & 0x8000 != 0));
    assert(((w ^ 0x0400) & 0x0400 != 0) != (w & 0x0400 != 0));
    assert(((w ^ 0x0200) & 0x0200 != 0) != (w & 0x0200 != 0));
    assert(((w ^ 0x0100) & 0x0100 != 0) != (w & 0x0100 != 0));
    assert(((w ^ 0x0080) & 0x0080 != 0) != (w & 0x0080 != 0));
}

pub proof fn lemma_header_bytes_len(h: MessageHeader)
    ensures
        header_bytes(h).len() == HEADER_LEN,
{
    crate::bytes::lemma_be_bytes_len(h.message_id as nat, 2);
    crate::bytes::lemma_be_bytes_len(flags_word(h.flags) as nat, 2);
    crate::bytes::lemma_be_bytes_len(h.query_count as nat, 2);
    crate::bytes::lemma_be_bytes_len(h.answer_count as nat, 2);
    crate::bytes::lemma_be_bytes_len(h.name_server_count as nat, 2);
    crate::bytes::lemma_be_bytes_len(h.additional_count as nat, 2);
}

/// The twelve bytes of a header with canonical flags decode to that header.
pub proof fn lemma_header_bytes_decode(frame: Seq<u8>, h: MessageHeader)
    requires
        h.flags.is_canonical(),
        HEADER_LEN <= frame.len(),
        frame.subrange(0, HEADER_LEN as int) == header_bytes(h),
    ensures
        header_of(frame) == h,
{
    let hb = header_bytes(h);
    lemma_pow256_values();
    lemma_be_round_trip(h.message_id as nat, 2);
    lemma_be_round_trip(flags_word(h.flags) as nat, 2);
    lemma_be_round_trip(h.query_count as nat, 2);
    lemma_be_round_trip(h.answer_count as nat, 2);
    lemma_be_round_trip(h.name_server_count as nat, 2);
    lemma_be_round_trip(h.additional_count as nat, 2);
    lemma_flags_round_trip(h.flags);
    let fields = seq![
        h.message_id as nat,
        flags_word(h.flags) as nat,
        h.query_count as nat,
        h.answer_count as nat,
        h.name_server_count as nat,
        h.additional_count as nat,
    ];
    assert forall|i: int| 0 <= i < 6 implies frame.subrange(2 * i, 2 * i + 2) == be_bytes(
        #[trigger] fields[i],
        2,
    ) by {
        lemma_sub_window(frame, 0, hb, 2 * i, 2);
        lemma_be_round_trip(fields[i], 2);
        assert(hb.subrange(2 * i, 2 * i + 2) =~= be_bytes(fields[i], 2));
    }
    assert(frame.subrange(0, 2) == be_bytes(fields[0], 2));
    assert(frame.subrange(2, 4) == be_bytes(fields[1], 2));
    assert(frame.subrange(4, 6) == be_bytes(fields[2], 2));
    assert(frame.subrange(6, 8) == be_bytes(fields[3], 2));
    assert(frame.subrange(8, 10) == be_bytes(fields[4], 2));
    assert(frame.subrange(10, 12) == be_bytes(fields[5], 2));
}

/// Decodes the header at the start of `input` and returns the bytes after it.
pub fn message_header(input: &[u8]) -> (r: Result<(&[u8], MessageHeader), DecodeError>)
    ensures
        input@.len() < HEADER_LEN ==> r == Err::<(&[u8], MessageHeader), DecodeError>(
            DecodeError::Truncated,
        ),
        input@.len() >= HEADER_LEN ==> (r matches Ok((rest, h)) && h == header_of(input@)
            && rest@ == input@.subrange(HEADER_LEN as int, input@.len() as int)),
{
    let len = input.len();
    if len < HEADER_LEN {
        return Err(DecodeError::Truncated);
    }
    proof {
        lemma_pow256_values();
    }
    let message_id = read_be(input, 0, 2) as u16;
    let flags = dns_flags(read_be(input, 2, 2) as u16);
    let query_count = read_be(input, 4, 2) as u16;
    let answer_count = read_be(input, 6, 2) as u16;
    let name_server_count = read_be(input, 8, 2) as u16;
    let additional_count = read_be(input, 10, 2) as u16;
    let rest = &input[HEADER_LEN..len];
    Ok(
        (
            rest,
            MessageHeader {
                message_id,
                flags,
                query_count,
                answer_count,
                name_server_count,
                additional_count,
            },
        ),
    )
}

/// Appends the twelve bytes of `h`.
pub fn encode_message_header(h: &MessageHeader, out: &mut Vec<u8>)
    requires
        h.flags.is_encodable(),
    ensures
        final(out)@ == old(out)@ + header_bytes(*h),
{
    push_be(out, h.message_id as u128, 2);
    push_be(out, encode_flags(&h.flags) as u128, 2);
    push_be(out, h.query_count as u128, 2);
    push_be(out, h.answer_count as u128, 2);
    push_be(out, h.name_server_count as u128, 2);
    push_be(out, h.additional_count as u128, 2);
    proof {
        assert(out@ =~= old(out)@ + header_bytes(*h));
    }
}

} // verus!

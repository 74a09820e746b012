//! Whole messages: the header, then as many queries and answers as it declares.
//!
//! The authority and additional sections are not decoded: their counts stay
//! visible in the decoded header, and the bytes after the answer section are
//! handed back to the caller untouched. The encoder writes both counts as
//! zero, since it writes neither section.
use vstd::prelude::*;

use crate::bytes::lemma_sub_window;
use crate::error::DecodeError;
use crate::header::{
    encode_message_header, header_bytes, header_of, lemma_header_bytes_decode,
    lemma_header_bytes_len, message_header, MessageHeader, HEADER_LEN,
};
use crate::input::DnsFrameInput;
use crate::name::is_encodable_name;
use crate::query::{
    encode_query, lemma_query_bytes_decode, parse_query, query, query_bytes, Query, QueryView,
};
use crate::resource_record::{
    encode_resource_record, lemma_record_bytes_decode, parse_record, record_bytes, resource_record,
    RecordView, ResourceRecord,
};

verus! {

/// A decoded message. `queries` and `answers` hold the question and answer
/// sections, in wire order.
#[derive(Debug, PartialEq)]
pub struct Message {
    pub header: MessageHeader,
    pub queries: Vec<Query>,
    pub answers: Vec<ResourceRecord>,
}

/// A message as plain values.
pub struct MessageView {
    pub header: MessageHeader,
    pub queries: Seq<QueryView>,
    pub answers: Seq<RecordView>,
}

impl View for Message {
    type V = MessageView;

    open spec fn view(&self) -> MessageView {
        MessageView {
            header: self.header,
            queries: self.queries@.map_values(|q: Query| q@),
            answers: self.answers@.map_values(|r: ResourceRecord| r@),
        }
    }
}

impl MessageView {
    /// What the encoder needs: flags whose codes fit their bits, names it
    /// can write, and sections whose lengths fit their 16-bit counts.
    pub open spec fn is_encodable(self) -> bool {
        &&& self.header.flags.is_encodable()
        &&& self.queries.len() <= 0xffff
        &&& self.answers.len() <= 0xffff
        &&& forall|i: int|
            0 <= i < self.queries.len() ==> is_encodable_name(#[trigger] self.queries[i].name)
        &&& forall|i: int|
            0 <= i < self.answers.len() ==> is_encodable_name(#[trigger] self.answers[i].name)
    }

    /// A message built only from what the codec supports: its header counts
    /// are those of its sections (with no authority or additional records),
    /// its flags and codes are canonical, its names valid, and its answers
    /// A or AAAA records.
    pub open spec fn is_valid(self) -> bool {
        &&& self.header.flags.is_canonical()
        &&& self.header.query_count == self.queries.len()
        &&& self.header.answer_count == self.answers.len()
        &&& self.header.name_server_count == 0
        &&& self.header.additional_count == 0
        &&& forall|i: int| 0 <= i < self.queries.len() ==> (#[trigger] self.queries[i]).is_valid()
        &&& forall|i: int| 0 <= i < self.answers.len() ==> (#[trigger] self.answers[i]).is_valid()
    }
}

/// `r` with `pre` put before the items it decoded.
pub open spec fn prepend<T>(pre: Seq<T>, r: Result<(int, Seq<T>), DecodeError>) -> Result<
    (int, Seq<T>),
    DecodeError,
> {
    match r {
        Ok((end, items)) => Ok((end, pre + items)),
        Err(e) => Err(e),
    }
}

/// `n` queries one after another from offset `pos` of `frame`.
pub open spec fn parse_queries(frame: Seq<u8>, pos: int, n: nat) -> Result<
    (int, Seq<QueryView>),
    DecodeError,
>
    decreases n,
{
    if n == 0 {
        Ok((pos, Seq::empty()))
    } else {
        match parse_query(frame, pos) {
            Err(e) => Err(e),
            Ok((next, q)) => prepend(seq![q], parse_queries(frame, next, (n - 1) as nat)),
        }
    }
}

/// `n` records one after another from offset `pos` of `frame`.
pub open spec fn parse_records(frame: Seq<u8>, pos: int, n: nat) -> Result<
    (int, Seq<RecordView>),
    DecodeError,
>
    decreases n,
{
    if n == 0 {
        Ok((pos, Seq::empty()))
    } else {
        match parse_record(frame, pos) {
            Err(e) => Err(e),
            Ok((next, r)) => prepend(seq![r], parse_records(frame, next, (n - 1) as nat)),
        }
    }
}

/// The message that `frame` holds: the header, then `query_count` queries,
/// then `answer_count` records. The offset is where the answer section ends.
pub open spec fn parse_message(frame: Seq<u8>) -> Result<(int, MessageView), DecodeError> {
    if frame.len() < HEADER_LEN {
        Err(DecodeError::Truncated)
    } else {
        let h = header_of(frame);
        match parse_queries(frame, HEADER_LEN as int, h.query_count as nat) {
            Err(e) => Err(e),
            Ok((p, queries)) => match parse_records(frame, p, h.answer_count as nat) {
                Err(e) => Err(e),
                Ok((end, answers)) => Ok((end, MessageView { header: h, queries, answers })),
            },
        }
    }
}

pub open spec fn queries_bytes(qs: Seq<QueryView>) -> Seq<u8>
    decreases qs.len(),
{
    if qs.len() == 0 {
        Seq::empty()
    } else {
        query_bytes(qs[0]) + queries_bytes(qs.drop_first())
    }
}

pub open spec fn records_bytes(rs: Seq<RecordView>) -> Seq<u8>
    decreases rs.len(),
{
    if rs.len() == 0 {
        Seq::empty()
    } else {
        record_bytes(rs[0]) + records_bytes(rs.drop_first())
    }
}

/// The header that the encoder writes for `m`: its counts are the lengths of
/// the sections written.
pub open spec fn encoded_header(m: MessageView) -> MessageHeader {
    MessageHeader {
        query_count: m.queries.len() as u16,
        answer_count: m.answers.len() as u16,
        name_server_count: 0,
        additional_count: 0,
        ..m.header
    }
}

/// The wire form of a message, without compression.
pub open spec fn message_bytes(m: MessageView) -> Seq<u8> {
    header_bytes(encoded_header(m)) + queries_bytes(m.queries) + records_bytes(m.answers)
}

/// Decodes `n` queries one after another from the cursor.
pub fn queries<'a>(input: DnsFrameInput<'a>, n: u16) -> (r: Result<
    (DnsFrameInput<'a>, Vec<Query>),
    DecodeError,
>)
    requires
        input.wf(),
    ensures
        match parse_queries(input.frame@, input.pos(), n as nat) {
            Ok((end, qs)) => r matches Ok((rest, v)) && rest.frame == input.frame && rest.wf()
                && rest.pos() == end && v@.map_values(|q: Query| q@) == qs,
            Err(e) => r == Err::<(DnsFrameInput<'a>, Vec<Query>), DecodeError>(e),
        },
{
    let ghost frame = input.frame@;
    let ghost start = input.pos();
    let mut cur = input;
    let mut items: Vec<Query> = Vec::new();
    let mut i: u16 = 0;
    proof {
        assert(items@.map_values(|q: Query| q@) =~= Seq::<QueryView>::empty());
        assert(parse_queries(frame, start, n as nat) =~~= prepend(
            items@.map_values(|q: Query| q@),
            parse_queries(frame, cur.pos(), n as nat),
        ));
    }
    while i < n
        invariant
            cur.wf(),
            cur.frame == input.frame,
            frame == input.frame@,
            start == input.pos(),
            i <= n,
            parse_queries(frame, start, n as nat) == prepend(
                items@.map_values(|q: Query| q@),
                parse_queries(frame, cur.pos(), (n - i) as nat),
            ),
        decreases n - i,
    {
        let ghost before = items@.map_values(|q: Query| q@);
        let (next, q) = query(cur)?;
        items.push(q);
        proof {
            assert(items@.map_values(|q: Query| q@) =~= before.push(q@));
            if let Ok((e, qs)) = parse_queries(frame, next.pos(), (n - i - 1) as nat) {
                assert(before + (seq![q@] + qs) =~= before.push(q@) + qs);
            }
        }
        cur = next;
        i = i + 1;
    }
    proof {
        let v = items@.map_values(|q: Query| q@);
        assert(v + Seq::<QueryView>::empty() =~= v);
    }
    Ok((cur, items))
}

/// Decodes `n` resource records one after another from the cursor.
pub fn resource_records<'a>(input: DnsFrameInput<'a>, n: u16) -> (r: Result<
    (DnsFrameInput<'a>, Vec<ResourceRecord>),
    DecodeError,
>)
    requires
        input.wf(),
    ensures
        match parse_records(input.frame@, input.pos(), n as nat) {
            Ok((end, rs)) => r matches Ok((rest, v)) && rest.frame == input.frame && rest.wf()
                && rest.pos() == end && v@.map_values(|r: ResourceRecord| r@) == rs,
            Err(e) => r == Err::<(DnsFrameInput<'a>, Vec<ResourceRecord>), DecodeError>(e),
        },
{
    let ghost frame = input.frame@;
    let ghost start = input.pos();
    let mut cur = input;
    let mut items: Vec<ResourceRecord> = Vec::new();
    let mut i: u16 = 0;
    proof {
        assert(items@.map_values(|r: ResourceRecord| r@) =~= Seq::<RecordView>::empty());
        assert(parse_records(frame, start, n as nat) =~~= prepend(
            items@.map_values(|r: ResourceRecord| r@),
            parse_records(frame, cur.pos(), n as nat),
        ));
    }
    while i < n
        invariant
            cur.wf(),
            cur.frame == input.frame,
            frame == input.frame@,
            start == input.pos(),
            i <= n,
            parse_records(frame, start, n as nat) == prepend(
                items@.map_values(|r: ResourceRecord| r@),
                parse_records(frame, cur.pos(), (n - i) as nat),
            ),
        decreases n - i,
    {
        let ghost before = items@.map_values(|r: ResourceRecord| r@);
        let (next, rec) = resource_record(cur)?;
        items.push(rec);
        proof {
            assert(items@.map_values(|r: ResourceRecord| r@) =~= before.push(rec@));
            if let Ok((e, rs)) = parse_records(frame, next.pos(), (n - i - 1) as nat) {
                assert(before + (seq![rec@] + rs) =~= before.push(rec@) + rs);
            }
        }
        cur = next;
        i = i + 1;
    }
    proof {
        let v = items@.map_values(|r: ResourceRecord| r@);
        assert(v + Seq::<RecordView>::empty() =~= v);
    }
    Ok((cur, items))
}

/// Decodes the message that `input` holds, and returns the bytes that follow
/// its answer section.
pub fn message(input: &[u8]) -> (r: Result<(&[u8], Message), DecodeError>)
    ensures
        match parse_message(input@) {
            Ok((end, m)) => r matches Ok((rest, v)) && v@ == m && rest@ == input@.subrange(
                end,
                input@.len() as int,
            ),
            Err(e) => r == Err::<(&[u8], Message), DecodeError>(e),
        },
{
    let (_, header) = message_header(input)?;
    let frame = DnsFrameInput::new(input);
    let (cur, queries) = queries(frame.at(HEADER_LEN), header.query_count)?;
    let (cur, answers) = resource_records(cur, header.answer_count)?;
    Ok((cur.input, Message { header, queries, answers }))
}

/// Decodes the message that `input` holds. Bytes after the answer section
/// (the authority and additional sections) are not decoded.
pub fn decode_message(input: &[u8]) -> (r: Result<Message, DecodeError>)
    ensures
        match parse_message(input@) {
            Ok((_, m)) => r matches Ok(v) && v@ == m,
            Err(e) => r == Err::<Message, DecodeError>(e),
        },
{
    let (_, m) = message(input)?;
    Ok(m)
}

/// Appends the wire form of `m`: the header, with the counts of the
/// sections written, then every query and every answer, names uncompressed.
pub fn encode_message(m: &Message, out: &mut Vec<u8>)
    requires
        m@.is_encodable(),
    ensures
        final(out)@ == old(out)@ + message_bytes(m@),
{
    let nq = m.queries.len();
    let na = m.answers.len();
    let header = MessageHeader {
        query_count: nq as u16,
        answer_count: na as u16,
        name_server_count: 0,
        additional_count: 0,
        ..m.header
    };
    encode_message_header(&header, out);
    let ghost base = out@;
    let ghost qv = m@.queries;
    let ghost av = m@.answers;
    let mut i: usize = 0;
    proof {
        assert(qv.take(0) =~= Seq::<QueryView>::empty());
        assert(out@ =~= base + queries_bytes(qv.take(0)));
    }
    while i < nq
        invariant
            nq == m.queries@.len(),
            qv == m@.queries,
            m@.is_encodable(),
            i <= nq,
            out@ == base + queries_bytes(qv.take(i as int)),
        decreases nq - i,
    {
        let q = &m.queries[i];
        assert(qv[i as int] == q@);
        assert(is_encodable_name(qv[i as int].name));
        encode_query(q, out);
        proof {
            lemma_queries_bytes_push(qv.take(i as int), q@);
            assert(qv.take(i + 1) =~= qv.take(i as int).push(q@));
            assert(out@ =~= base + queries_bytes(qv.take(i + 1)));
        }
        i = i + 1;
    }
    let ghost mid = out@;
    let mut j: usize = 0;
    proof {
        assert(qv.take(nq as int) =~= qv);
        assert(av.take(0) =~= Seq::<RecordView>::empty());
        assert(out@ =~= mid + records_bytes(av.take(0)));
    }
    while j < na
        invariant
            na == m.answers@.len(),
            av == m@.answers,
            m@.is_encodable(),
            j <= na,
            out@ == mid + records_bytes(av.take(j as int)),
        decreases na - j,
    {
        let rec = &m.answers[j];
        assert(av[j as int] == rec@);
        assert(is_encodable_name(av[j as int].name));
        encode_resource_record(rec, out);
        proof {
            lemma_records_bytes_push(av.take(j as int), rec@);
            assert(av.take(j + 1) =~= av.take(j as int).push(rec@));
            assert(out@ =~= mid + records_bytes(av.take(j + 1)));
        }
        j = j + 1;
    }
    proof {
        assert(av.take(na as int) =~= av);
        assert(header == encoded_header(m@));
        assert(out@ =~= old(out)@ + message_bytes(m@));
    }
}

proof fn lemma_queries_bytes_push(qs: Seq<QueryView>, q: QueryView)
    ensures
        queries_bytes(qs.push(q)) == queries_bytes(qs) + query_bytes(q),
    decreases qs.len(),
{
    assert(qs.push(q)[0] == if qs.len() == 0 { q } else { qs[0] });
    if qs.len() == 0 {
        assert(qs.push(q).drop_first() =~= Seq::<QueryView>::empty());
        assert(queries_bytes(Seq::<QueryView>::empty()) == Seq::<u8>::empty());
        assert(queries_bytes(qs.push(q)) =~= queries_bytes(qs) + query_bytes(q));
    } else {
        assert(qs.push(q).drop_first() =~= qs.drop_first().push(q));
        lemma_queries_bytes_push(qs.drop_first(), q);
        let a = query_bytes(qs[0]);
        let b = queries_bytes(qs.drop_first());
        let c = query_bytes(q);
        assert(a + (b + c) =~= (a + b) + c);
    }
}

proof fn lemma_records_bytes_push(rs: Seq<RecordView>, r: RecordView)
    ensures
        records_bytes(rs.push(r)) == records_bytes(rs) + record_bytes(r),
    decreases rs.len(),
{
    assert(rs.push(r)[0] == if rs.len() == 0 { r } else { rs[0] });
    if rs.len() == 0 {
        assert(rs.push(r).drop_first() =~= Seq::<RecordView>::empty());
        assert(records_bytes(Seq::<RecordView>::empty()) == Seq::<u8>::empty());
        assert(records_bytes(rs.push(r)) =~= records_bytes(rs) + record_bytes(r));
    } else {
        assert(rs.push(r).drop_first() =~= rs.drop_first().push(r));
        lemma_records_bytes_push(rs.drop_first(), r);
        let a = record_bytes(rs[0]);
        let b = records_bytes(rs.drop_first());
        let c = record_bytes(r);
        assert(a + (b + c) =~= (a + b) + c);
    }
}

proof fn lemma_queries_bytes_decode(frame: Seq<u8>, p: int, qs: Seq<QueryView>)
    requires
        forall|i: int| 0 <= i < qs.len() ==> (#[trigger] qs[i]).is_valid(),
        0 <= p,
        p + queries_bytes(qs).len() <= frame.len(),
        frame.subrange(p, p + queries_bytes(qs).len()) == queries_bytes(qs),
    ensures
        parse_queries(frame, p, qs.len()) == Ok::<(int, Seq<QueryView>), DecodeError>(
            (p + queries_bytes(qs).len(), qs),
        ),
    decreases qs.len(),
{
    if qs.len() == 0 {
        assert(qs =~= Seq::<QueryView>::empty());
    } else {
        let q = qs[0];
        let rest = qs.drop_first();
        let a = query_bytes(q);
        let b = queries_bytes(rest);
        let whole = queries_bytes(qs);
        assert(whole == a + b);
        lemma_sub_window(frame, p, whole, 0, a.len() as int);
        assert(whole.subrange(0, a.len() as int) =~= a);
        lemma_query_bytes_decode(frame, p, q);
        lemma_sub_window(frame, p, whole, a.len() as int, b.len() as int);
        assert(whole.subrange(a.len() as int, (a.len() + b.len()) as int) =~= b);
        assert forall|i: int| 0 <= i < rest.len() implies (#[trigger] rest[i]).is_valid() by {
            assert(rest[i] == qs[i + 1]);
        }
        lemma_queries_bytes_decode(frame, p + a.len(), rest);
        assert(seq![q] + rest =~= qs);
    }
}

proof fn lemma_records_bytes_decode(frame: Seq<u8>, p: int, rs: Seq<RecordView>)
    requires
        forall|i: int| 0 <= i < rs.len() ==> (#[trigger] rs[i]).is_valid(),
        0 <= p,
        p + records_bytes(rs).len() <= frame.len(),
        frame.subrange(p, p + records_bytes(rs).len()) == records_bytes(rs),
    ensures
        parse_records(frame, p, rs.len()) == Ok::<(int, Seq<RecordView>), DecodeError>(
            (p + records_bytes(rs).len(), rs),
        ),
    decreases rs.len(),
{
    if rs.len() == 0 {
        assert(rs =~= Seq::<RecordView>::empty());
    } else {
        let r = rs[0];
        let rest = rs.drop_first();
        let a = record_bytes(r);
        let b = records_bytes(rest);
        let whole = records_bytes(rs);
        assert(whole == a + b);
        lemma_sub_window(frame, p, whole, 0, a.len() as int);
        assert(whole.subrange(0, a.len() as int) =~= a);
        lemma_record_bytes_decode(frame, p, r);
        lemma_sub_window(frame, p, whole, a.len() as int, b.len() as int);
        assert(whole.subrange(a.len() as int, (a.len() + b.len()) as int) =~= b);
        assert forall|i: int| 0 <= i < rest.len() implies (#[trigger] rest[i]).is_valid() by {
            assert(rest[i] == rs[i + 1]);
        }
        lemma_records_bytes_decode(frame, p + a.len(), rest);
        assert(seq![r] + rest =~= rs);
    }
}

/// Round trip: a message built only from supported constructs, encoded
/// (without compression) and decoded again, is the same message, and the
/// decoder reads exactly the bytes that the encoder wrote.
pub proof fn lemma_message_round_trip(m: MessageView)
    requires
        m.is_valid(),
    ensures
        parse_message(message_bytes(m)) == Ok::<(int, MessageView), DecodeError>(
            (message_bytes(m).len() as int, m),
        ),
{
    let h = encoded_header(m);
    let hb = header_bytes(h);
    let qb = queries_bytes(m.queries);
    let rb = records_bytes(m.answers);
    let frame = message_bytes(m);
    assert(h == m.header);
    lemma_header_bytes_len(h);
    assert(frame.subrange(0, HEADER_LEN as int) =~= hb);
    lemma_header_bytes_decode(frame, h);
    assert(frame.subrange(HEADER_LEN as int, HEADER_LEN + qb.len()) =~= qb);
    lemma_queries_bytes_decode(frame, HEADER_LEN as int, m.queries);
    assert(frame.subrange(HEADER_LEN + qb.len(), HEADER_LEN + qb.len() + rb.len()) =~= rb);
    lemma_records_bytes_decode(frame, HEADER_LEN + qb.len(), m.answers);
}

} // verus!

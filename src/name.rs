//! Domain names: length-prefixed labels, ended by a zero byte or by a
//! compression pointer into the frame.
//!
//! A pointer is followed only when its target lies strictly before the
//! pointer itself, which rules out self-loops and forward or out-of-bounds
//! targets. A walk that keeps coming back through the same labels grows the
//! name, and the cap of `MAX_NAME_LEN` bytes on a name ends it: every name is
//! decoded or rejected after a bounded number of steps. The encoder never
//! writes pointers.
use vstd::prelude::*;
use vstd::utf8::{
    decode_utf8, encode_utf8, encode_utf8_decode_utf8, encode_utf8_valid_utf8, valid_utf8,
};

use crate::error::DecodeError;
use crate::input::DnsFrameInput;

verus! {

/// The longest label, in bytes.
pub const MAX_LABEL_LEN: usize = 63;

/// The longest name on the wire, length bytes and final zero byte included.
pub const MAX_NAME_LEN: usize = 255;

/// A domain name as its sequence of labels, without the empty root label.
#[derive(Debug, PartialEq)]
pub struct Name(pub Vec<String>);

/// The characters of each label.
pub open spec fn label_views(v: Seq<String>) -> Seq<Seq<char>> {
    v.map_values(|s: String| s@)
}

impl View for Name {
    type V = Seq<Seq<char>>;

    open spec fn view(&self) -> Seq<Seq<char>> {
        label_views(self.0@)
    }
}

/// Outcome of decoding a name: the offset just past it in the cursor's
/// bytes, and its labels.
pub type NameResult = Result<(int, Seq<Seq<char>>), DecodeError>;

/// The label at `pos`: a length byte from 1 to 63, then that many bytes of UTF-8.
pub open spec fn parse_label(frame: Seq<u8>, pos: int) -> Result<(int, Seq<char>), DecodeError> {
    if pos < 0 || pos >= frame.len() {
        Err(DecodeError::Truncated)
    } else {
        let n = frame[pos] as int;
        if n == 0 || n > MAX_LABEL_LEN {
            Err(DecodeError::MalformedName)
        } else if pos + 1 + n > frame.len() {
            Err(DecodeError::Truncated)
        } else if !valid_utf8(frame.subrange(pos + 1, pos + 1 + n)) {
            Err(DecodeError::MalformedName)
        } else {
            Ok((pos + 1 + n, decode_utf8(frame.subrange(pos + 1, pos + 1 + n))))
        }
    }
}

/// The offset that the two-byte pointer at `pos` holds in its low 14 bits.
pub open spec fn pointer_target(frame: Seq<u8>, pos: int) -> int {
    (frame[pos] & 0x3f) as int * 256 + frame[pos + 1] as int
}

/// The rest of a name from `pos` on, after labels that took `used` bytes on
/// the wire.
///
/// A zero byte ends the name. A byte with both top bits set starts a pointer:
/// the name goes on at its target, which must lie before the pointer, and the
/// name ends, in the cursor's bytes, just after the pointer. Any other byte
/// starts a label, which must keep the whole name within `MAX_NAME_LEN` bytes.
pub open spec fn name_walk(frame: Seq<u8>, pos: int, used: int) -> NameResult
    decreases MAX_NAME_LEN - used, pos,
{
    if pos < 0 || pos >= frame.len() {
        Err(DecodeError::Truncated)
    } else if frame[pos] == 0 {
        Ok((pos + 1, Seq::empty()))
    } else if frame[pos] >= 0xc0 {
        if pos + 2 > frame.len() {
            Err(DecodeError::Truncated)
        } else if pointer_target(frame, pos) >= pos {
            Err(DecodeError::MalformedName)
        } else {
            match name_walk(frame, pointer_target(frame, pos), used) {
                Ok((_, labels)) => Ok((pos + 2, labels)),
                Err(e) => Err(e),
            }
        }
    } else {
        match parse_label(frame, pos) {
            Err(e) => Err(e),
            Ok((next, label)) => {
                if used + (next - pos) + 1 > MAX_NAME_LEN {
                    Err(DecodeError::MalformedName)
                } else {
                    match name_walk(frame, next, used + (next - pos)) {
                        Ok((end, labels)) => Ok((end, seq![label] + labels)),
                        Err(e) => Err(e),
                    }
                }
            }
        }
    }
}

/// The name that starts at offset `pos` of `frame`.
pub open spec fn name_at(frame: Seq<u8>, pos: int) -> NameResult {
    name_walk(frame, pos, 0)
}

/// A name decoded as far as the labels `pre`, with the rest still to come:
/// `end` is set once a pointer has fixed where the name ends.
spec fn join(end: Option<usize>, pre: Seq<Seq<char>>, rest: NameResult) -> NameResult {
    match rest {
        Ok((e, labels)) => Ok(
            (
                match end {
                    Some(x) => x as int,
                    None => e,
                },
                pre + labels,
            ),
        ),
        Err(x) => Err(x),
    }
}

/// The wire form of one label: its length, then its UTF-8 bytes.
pub open spec fn label_bytes(label: Seq<char>) -> Seq<u8> {
    seq![encode_utf8(label).len() as u8] + encode_utf8(label)
}

pub open spec fn labels_bytes(labels: Seq<Seq<char>>) -> Seq<u8>
    decreases labels.len(),
{
    if labels.len() == 0 {
        Seq::empty()
    } else {
        label_bytes(labels[0]) + labels_bytes(labels.drop_first())
    }
}

/// The wire form of a name, without compression.
pub open spec fn name_bytes(labels: Seq<Seq<char>>) -> Seq<u8> {
    labels_bytes(labels).push(0)
}

/// A label of 1 to 63 bytes.
pub open spec fn is_valid_label(label: Seq<char>) -> bool {
    1 <= encode_utf8(label).len() <= MAX_LABEL_LEN
}

/// Labels that the encoder can write.
pub open spec fn is_encodable_name(labels: Seq<Seq<char>>) -> bool {
    forall|i: int| 0 <= i < labels.len() ==> is_valid_label(#[trigger] labels[i])
}

/// Labels that the encoder can write and the decoder accepts.
pub open spec fn is_valid_name(labels: Seq<Seq<char>>) -> bool {
    is_encodable_name(labels) && name_bytes(labels).len() <= MAX_NAME_LEN
}

/// Relies on `String::from_utf8`: it succeeds exactly on valid UTF-8, and the
/// string then holds the characters that the bytes encode.
#[verifier::external_body]
fn utf8_string(bytes: &[u8]) -> (r: Option<String>)
    ensures
        r.is_some() == valid_utf8(bytes@),
        r matches Some(s) ==> s@ == decode_utf8(bytes@),
{
    String::from_utf8(bytes.to_vec()).ok()
}

/// Whether a length byte starts a compression pointer (top bits `11`).
pub fn is_pointer(b: u8) -> (r: bool)
    ensures
        r == (b >= 0xc0),
{
    proof {
        assert((b & 0xc0 == 0xc0) == (b >= 0xc0)) by (bit_vector);
    }
    b & 0b1100_0000 == 0b1100_0000
}

/// The length that a length byte gives a label, if it is a label length.
pub fn label_size(b: u8) -> (r: Option<u8>)
    ensures
        r == (if 1 <= b <= MAX_LABEL_LEN {
            Some(b)
        } else {
            None::<u8>
        }),
{
    proof {
        assert((b & 0xc0 == 0) == (b < 64)) by (bit_vector);
        assert(b < 64 ==> b & 0x3f == b) by (bit_vector);
    }
    if b == 0 || b & 0b1100_0000 != 0 {
        None
    } else {
        Some(b & 0b0011_1111)
    }
}

/// Decodes the label at the cursor.
pub fn name_label<'a>(input: DnsFrameInput<'a>) -> (r: Result<
    (DnsFrameInput<'a>, String),
    DecodeError,
>)
    requires
        input.wf(),
    ensures
        match parse_label(input.frame@, input.pos()) {
            Ok((next, label)) => r matches Ok((rest, s)) && rest.frame == input.frame && rest.wf()
                && rest.pos() == next && s@ == label,
            Err(e) => r == Err::<(DnsFrameInput<'a>, String), DecodeError>(e),
        },
{
    let frame = input.frame;
    let len = frame.len();
    let pos = input.offset();
    if pos >= len {
        return Err(DecodeError::Truncated);
    }
    let size = match label_size(frame[pos]) {
        None => return Err(DecodeError::MalformedName),
        Some(size) => size as usize,
    };
    if size > len - pos - 1 {
        return Err(DecodeError::Truncated);
    }
    let next = pos + 1 + size;
    match utf8_string(&frame[pos + 1..next]) {
        None => Err(DecodeError::MalformedName),
        Some(label) => Ok((input.at(next), label)),
    }
}

/// Decodes the name at the cursor, following compression pointers, and
/// returns the cursor just past the name's bytes at that place.
pub fn name<'a>(input: DnsFrameInput<'a>) -> (r: Result<
    (DnsFrameInput<'a>, Vec<String>),
    DecodeError,
>)
    requires
        input.wf(),
    ensures
        match name_at(input.frame@, input.pos()) {
            Ok((end, labels)) => r matches Ok((rest, v)) && rest.frame == input.frame && rest.wf()
                && rest.pos() == end && label_views(v@) == labels,
            Err(e) => r == Err::<(DnsFrameInput<'a>, Vec<String>), DecodeError>(e),
        },
{
    let frame = input.frame;
    let len = frame.len();
    let start = input.offset();
    let mut pos = start;
    let mut used: usize = 0;
    let mut labels: Vec<String> = Vec::new();
    let mut end: Option<usize> = None;
    proof {
        assert(label_views(labels@) =~= Seq::<Seq<char>>::empty());
        assert(name_at(frame@, start as int) =~~= join(
            end,
            label_views(labels@),
            name_walk(frame@, pos as int, used as int),
        ));
    }
    loop
        invariant
            input.wf(),
            frame == input.frame,
            len == frame@.len(),
            start == input.pos(),
            pos <= len,
            used + 1 <= MAX_NAME_LEN,
            match end {
                Some(e) => e <= len,
                None => true,
            },
            name_at(frame@, start as int) == join(
                end,
                label_views(labels@),
                name_walk(frame@, pos as int, used as int),
            ),
        decreases MAX_NAME_LEN - used, pos,
    {
        if pos >= len {
            return Err(DecodeError::Truncated);
        }
        let b = frame[pos];
        if b == 0 {
            let e = match end {
                Some(e) => e,
                None => pos + 1,
            };
            proof {
                assert(label_views(labels@) + Seq::<Seq<char>>::empty() =~= label_views(labels@));
            }
            return Ok((input.at(e), labels));
        }
        if is_pointer(b) {
            if pos + 1 >= len {
                return Err(DecodeError::Truncated);
            }
            let target = ((b & 0x3f) as usize) * 256 + frame[pos + 1] as usize;
            if target >= pos {
                return Err(DecodeError::MalformedName);
            }
            if end.is_none() {
                end = Some(pos + 2);
            }
            pos = target;
        } else {
            match name_label(input.at(pos)) {
                Err(e) => return Err(e),
                Ok((next_input, label)) => {
                    let next = next_input.offset();
                    if used + (next - pos) + 1 > MAX_NAME_LEN {
                        return Err(DecodeError::MalformedName);
                    }
                    let ghost old_labels = label_views(labels@);
                    labels.push(label);
                    proof {
                        assert(label_views(labels@) =~= old_labels.push(label@));
                        let used_next = (used + (next - pos)) as int;
                        if let Ok((e, ls)) = name_walk(frame@, next as int, used_next) {
                            let pushed = old_labels.push(label@);
                            assert(old_labels + (seq![label@] + ls) =~= pushed + ls);
                        }
                    }
                    used = used + (next - pos);
                    pos = next;
                }
            }
        }
    }
}

/// Appends the wire form of `name`: each label after its length, then a zero byte.
pub fn encode_name(name: &Name, out: &mut Vec<u8>)
    requires
        is_encodable_name(name@),
    ensures
        final(out)@ == old(out)@ + name_bytes(name@),
{
    let labels = &name.0;
    let n = labels.len();
    let mut i: usize = 0;
    proof {
        assert(name@.take(0) =~= Seq::<Seq<char>>::empty());
        assert(out@ =~= old(out)@ + labels_bytes(name@.take(0)));
    }
    while i < n
        invariant
            labels == name.0,
            n == name@.len(),
            i <= n,
            is_encodable_name(name@),
            out@ == old(out)@ + labels_bytes(name@.take(i as int)),
        decreases n - i,
    {
        let bytes = labels[i].as_str().as_bytes();
        let blen = bytes.len();
        let ghost label = name@[i as int];
        assert(label == labels@[i as int]@);
        assert(bytes@ == encode_utf8(label));
        assert(is_valid_label(label));
        let ghost base = out@;
        out.push(blen as u8);
        let mut j: usize = 0;
        while j < blen
            invariant
                blen == bytes@.len(),
                j <= blen,
                out@ == base + seq![blen as u8] + bytes@.take(j as int),
            decreases blen - j,
        {
            out.push(bytes[j]);
            proof {
                assert(bytes@.take(j + 1) =~= bytes@.take(j as int).push(bytes@[j as int]));
            }
            j = j + 1;
        }
        proof {
            assert(bytes@.take(blen as int) =~= bytes@);
            lemma_labels_bytes_push(name@.take(i as int), label);
            assert(name@.take(i + 1) =~= name@.take(i as int).push(label));
            assert(out@ =~= old(out)@ + labels_bytes(name@.take(i + 1)));
        }
        i = i + 1;
    }
    out.push(0);
    proof {
        assert(name@.take(n as int) =~= name@);
        assert(out@ =~= old(out)@ + name_bytes(name@));
    }
}

/// A name that decodes ends after its first byte and within the frame.
pub proof fn lemma_name_walk_end(frame: Seq<u8>, pos: int, used: int)
    ensures
        name_walk(frame, pos, used) matches Ok((end, _)) ==> 0 <= pos < end <= frame.len(),
    decreases MAX_NAME_LEN - used, pos,
{
    if 0 <= pos < frame.len() && frame[pos] != 0 && frame[pos] < 0xc0 {
        if let Ok((next, _)) = parse_label(frame, pos) {
            if used + (next - pos) + 1 <= MAX_NAME_LEN {
                lemma_name_walk_end(frame, next, used + (next - pos));
            }
        }
    }
}

/// Name decompression: a pointer at offset `b` to an earlier offset `a`
/// decodes to the labels of the name at `a`, and the name at `b` ends just
/// after the two pointer bytes. Both fail alike when the name at `a` fails.
/// (A pointer holds 14 bits, so only offsets below `0x4000` can be targets.)
pub proof fn lemma_pointer_gives_target_name(frame: Seq<u8>, a: int, b: int)
    requires
        0 <= a < b,
        b + 1 < frame.len(),
        frame[b] >= 0xc0,
        pointer_target(frame, b) == a,
    ensures
        name_at(frame, b) == match name_at(frame, a) {
            Ok((_, labels)) => Ok((b + 2, labels)),
            Err(e) => Err(e),
        },
{
}

/// Pointer-cycle rejection: wherever the walk of a name meets a pointer whose
/// target is its own offset or a later one, the name is rejected. This covers
/// a pointer to itself and, from either end, two pointers that target each
/// other.
pub proof fn lemma_pointer_cycle_rejected(frame: Seq<u8>, x: int, used: int)
    requires
        0 <= x,
        x + 1 < frame.len(),
        frame[x] >= 0xc0,
        pointer_target(frame, x) >= x,
    ensures
        name_walk(frame, x, used) == Err::<(int, Seq<Seq<char>>), DecodeError>(
            DecodeError::MalformedName,
        ),
{
}

/// Two pointers that target each other make both names fail.
pub proof fn lemma_pointer_pair_rejected(frame: Seq<u8>, x: int, y: int)
    requires
        0 <= x < y,
        y + 1 < frame.len(),
        frame[x] >= 0xc0,
        frame[y] >= 0xc0,
        pointer_target(frame, x) == y,
        pointer_target(frame, y) == x,
    ensures
        name_at(frame, x) == Err::<(int, Seq<Seq<char>>), DecodeError>(DecodeError::MalformedName),
        name_at(frame, y) == Err::<(int, Seq<Seq<char>>), DecodeError>(DecodeError::MalformedName),
{
    lemma_pointer_cycle_rejected(frame, x, 0);
}

/// Out-of-bounds pointer rejection: wherever the walk of a name meets a
/// pointer whose target lies at or past the end of the frame, the name is
/// rejected.
pub proof fn lemma_out_of_bounds_pointer_rejected(frame: Seq<u8>, x: int, used: int)
    requires
        0 <= x,
        x + 1 < frame.len(),
        frame[x] >= 0xc0,
        pointer_target(frame, x) >= frame.len(),
    ensures
        name_walk(frame, x, used) == Err::<(int, Seq<Seq<char>>), DecodeError>(
            DecodeError::MalformedName,
        ),
{
    lemma_pointer_cycle_rejected(frame, x, used);
}

/// The uncompressed wire form of a valid name decodes to that name, wherever
/// it stands in the frame.
pub proof fn lemma_name_bytes_decode(
    frame: Seq<u8>,
    p: int,
    used: int,
    labels: Seq<Seq<char>>,
)
    requires
        is_encodable_name(labels),
        0 <= p,
        0 <= used,
        used + name_bytes(labels).len() <= MAX_NAME_LEN,
        p + name_bytes(labels).len() <= frame.len(),
        frame.subrange(p, p + name_bytes(labels).len()) == name_bytes(labels),
    ensures
        name_walk(frame, p, used) == Ok::<(int, Seq<Seq<char>>), DecodeError>(
            (p + name_bytes(labels).len(), labels),
        ),
    decreases labels.len(),
{
    let nb = name_bytes(labels);
    assert(frame[p] == nb[0]);
    if labels.len() == 0 {
        assert(nb =~= seq![0u8]);
        assert(labels =~= Seq::<Seq<char>>::empty());
    } else {
        let l = labels[0];
        let rest = labels.drop_first();
        let u = encode_utf8(l);
        let n = u.len() as int;
        assert(is_valid_label(l));
        encode_utf8_valid_utf8(l);
        encode_utf8_decode_utf8(l);
        assert(nb =~= label_bytes(l) + name_bytes(rest));
        assert(frame[p] == n);
        assert(frame.subrange(p + 1, p + 1 + n) =~= u) by {
            assert forall|k: int|
                0 <= k < n implies frame.subrange(p + 1, p + 1 + n)[k] == u[k] by {
                assert(frame[p + 1 + k] == nb[1 + k]);
            }
        }
        assert(parse_label(frame, p) == Ok::<(int, Seq<char>), DecodeError>((p + 1 + n, l)));
        let nr = name_bytes(rest);
        assert(frame.subrange(p + 1 + n, p + 1 + n + nr.len()) =~= nr) by {
            assert forall|k: int| 0 <= k < nr.len() implies frame.subrange(
                p + 1 + n,
                p + 1 + n + nr.len(),
            )[k] == nr[k] by {
                assert(frame[p + 1 + n + k] == nb[1 + n + k]);
            }
        }
        assert forall|i: int| 0 <= i < rest.len() implies is_valid_label(#[trigger] rest[i]) by {
            assert(rest[i] == labels[i + 1]);
        }
        lemma_name_bytes_decode(frame, p + 1 + n, used + 1 + n, rest);
        assert(seq![l] + rest =~= labels);
    }
}

pub proof fn lemma_labels_bytes_push(labels: Seq<Seq<char>>, label: Seq<char>)
    ensures
        labels_bytes(labels.push(label)) == labels_bytes(labels) + label_bytes(label),
    decreases labels.len(),
{
    if labels.len() == 0 {
        assert(labels.push(label).drop_first() =~= Seq::<Seq<char>>::empty());
        assert(labels.push(label)[0] == label);
        let e = Seq::<Seq<char>>::empty();
        assert(labels_bytes(e) == Seq::<u8>::empty());
        assert(labels_bytes(labels.push(label)) == label_bytes(label) + labels_bytes(e));
        assert(labels_bytes(labels.push(label)) =~= labels_bytes(labels) + label_bytes(label));
    } else {
        assert(labels.push(label).drop_first() =~= labels.drop_first().push(label));
        assert(labels.push(label)[0] == labels[0]);
        lemma_labels_bytes_push(labels.drop_first(), label);
        let a = label_bytes(labels[0]);
        let b = labels_bytes(labels.drop_first());
        let c = label_bytes(label);
        let tail = labels.drop_first().push(label);
        assert(labels_bytes(labels.push(label)) == a + labels_bytes(tail));
        assert(labels_bytes(labels) == a + b);
        assert(a + (b + c) =~= (a + b) + c);
    }
}

} // verus!

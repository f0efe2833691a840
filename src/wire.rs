//! The wire format, as spec functions: what each value encodes to, and what
//! a buffer decodes to from a given position.

use vstd::prelude::*;
use crate::message::{AnswerView, DnsError, Header, MessageView, QuestionView};

verus! {

/// A 16-bit integer, big-endian.
pub open spec fn u16_bytes(x: u16) -> Seq<u8> {
    seq![(x / 256) as u8, (x % 256) as u8]
}

/// A 32-bit integer, big-endian.
pub open spec fn u32_bytes(x: u32) -> Seq<u8> {
    seq![(x / 0x100_0000) as u8, ((x / 0x1_0000) % 256) as u8, ((x / 256) % 256) as u8, (x % 256) as u8]
}

/// The big-endian 16-bit integer at `i`.
pub open spec fn u16_at(buf: Seq<u8>, i: int) -> u16 {
    (buf[i] as int * 256 + buf[i + 1] as int) as u16
}

/// The big-endian 32-bit integer at `i`.
pub open spec fn u32_at(buf: Seq<u8>, i: int) -> u32 {
    (buf[i] as int * 0x100_0000 + buf[i + 1] as int * 0x1_0000 + buf[i + 2] as int * 256
        + buf[i + 3] as int) as u32
}

/// Third byte of the header: qr, opcode, aa, tc, rd, most significant first.
pub open spec fn flags_high(h: Header) -> u8 {
    (h.qr as int * 128 + h.opcode as int * 8 + h.aa as int * 4 + h.tc as int * 2 + h.rd as int) as u8
}

/// Fourth byte of the header: ra, z, rcode, most significant first.
pub open spec fn flags_low(h: Header) -> u8 {
    (h.ra as int * 128 + h.z as int * 16 + h.rcode as int) as u8
}

pub open spec fn header_bytes(h: Header) -> Seq<u8> {
    u16_bytes(h.id) + seq![flags_high(h), flags_low(h)] + u16_bytes(h.qdcount) + u16_bytes(
        h.ancount,
    ) + u16_bytes(h.nscount) + u16_bytes(h.arcount)
}

/// The header held by the 12 bytes at `i`.
pub open spec fn header_at(buf: Seq<u8>, i: int) -> Header {
    let hi = buf[i + 2];
    let lo = buf[i + 3];
    Header {
        id: u16_at(buf, i),
        qr: hi / 128,
        opcode: (hi / 8) % 16,
        aa: (hi / 4) % 2,
        tc: (hi / 2) % 2,
        rd: hi % 2,
        ra: lo / 128,
        z: (lo / 16) % 8,
        rcode: lo % 16,
        qdcount: u16_at(buf, i + 4),
        ancount: u16_at(buf, i + 6),
        nscount: u16_at(buf, i + 8),
        arcount: u16_at(buf, i + 10),
    }
}

/// Decoding a header at `pos`: the header and the position after it.
pub open spec fn parse_header(buf: Seq<u8>, pos: int) -> Result<(Header, int), DnsError> {
    if 0 <= pos && pos + 12 <= buf.len() {
        Ok((header_at(buf, pos), pos + 12))
    } else {
        Err(DnsError::TruncatedInput)
    }
}

/// A length byte that starts a compression pointer (its top two bits set).
pub open spec fn is_pointer(b: u8) -> bool {
    b >= 0xC0
}

/// The 14-bit offset of the compression pointer at `i`.
pub open spec fn pointer_target(buf: Seq<u8>, i: int) -> int {
    (buf[i] - 0xC0) * 256 + buf[i + 1]
}

/// Decoding a name at `pos`, where a compression pointer must point before
/// `limit`, the start of the name part that holds it. The result is the
/// label bytes (no terminator, no pointer) and the position after the name
/// where it was first read. A zero length byte ends the name; any other
/// byte below 0xC0 is the length of a literal label.
pub open spec fn parse_name(buf: Seq<u8>, pos: int, limit: int) -> Result<(Seq<u8>, int), DnsError>
    decreases limit, buf.len() - pos,
{
    if pos < 0 || pos >= buf.len() {
        Err(DnsError::TruncatedInput)
    } else {
        let b = buf[pos];
        if b == 0 {
            Ok((Seq::empty(), pos + 1))
        } else if is_pointer(b) {
            if pos + 1 >= buf.len() {
                Err(DnsError::TruncatedInput)
            } else {
                let target = pointer_target(buf, pos);
                if target >= limit {
                    Err(DnsError::CompressionLoop)
                } else {
                    match parse_name(buf, target, target) {
                        Ok((suffix, _)) => Ok((suffix, pos + 2)),
                        Err(e) => Err(e),
                    }
                }
            }
        } else {
            let next = pos + 1 + b;
            if next > buf.len() {
                Err(DnsError::TruncatedInput)
            } else {
                match parse_name(buf, next, limit) {
                    Ok((rest, end)) => Ok((buf.subrange(pos, next) + rest, end)),
                    Err(e) => Err(e),
                }
            }
        }
    }
}

/// A name in label form: each label a length byte (neither zero nor a
/// pointer) followed by that many bytes.
pub open spec fn valid_name(n: Seq<u8>) -> bool
    decreases n.len(),
{
    n.len() == 0 || (0 < n[0] && !is_pointer(n[0]) && 1 + n[0] <= n.len() && valid_name(
        n.subrange(1 + n[0], n.len() as int),
    ))
}

/// A name on the wire: its labels, then the terminating zero byte.
pub open spec fn name_bytes(n: Seq<u8>) -> Seq<u8> {
    n.push(0)
}

pub open spec fn question_bytes(q: QuestionView) -> Seq<u8> {
    name_bytes(q.name) + u16_bytes(q.record_type) + u16_bytes(q.class)
}

/// Decoding a question at `pos`: name, type, class.
pub open spec fn parse_question(buf: Seq<u8>, pos: int) -> Result<(QuestionView, int), DnsError> {
    match parse_name(buf, pos, pos) {
        Ok((name, p)) => if p + 4 <= buf.len() {
            Ok((QuestionView { name, record_type: u16_at(buf, p), class: u16_at(buf, p + 2) }, p + 4))
        } else {
            Err(DnsError::TruncatedInput)
        },
        Err(e) => Err(e),
    }
}

/// The wire form of a record; the length field is the length of `data`.
pub open spec fn answer_bytes(a: AnswerView) -> Seq<u8> {
    name_bytes(a.name) + u16_bytes(a.record_type) + u16_bytes(a.class) + u32_bytes(a.ttl)
        + u16_bytes(a.data.len() as u16) + a.data
}

/// Decoding a record at `pos`: name, type, class, ttl, then a length and
/// that many bytes of data.
pub open spec fn parse_answer(buf: Seq<u8>, pos: int) -> Result<(AnswerView, int), DnsError> {
    match parse_name(buf, pos, pos) {
        Ok((name, p)) => if p + 10 <= buf.len() {
            let len = u16_at(buf, p + 8);
            if p + 10 + len <= buf.len() {
                Ok(
                    (
                        AnswerView {
                            name,
                            record_type: u16_at(buf, p),
                            class: u16_at(buf, p + 2),
                            ttl: u32_at(buf, p + 4),
                            data_length: len,
                            data: buf.subrange(p + 10, p + 10 + len),
                        },
                        p + 10 + len,
                    ),
                )
            } else {
                Err(DnsError::TruncatedInput)
            }
        } else {
            Err(DnsError::TruncatedInput)
        },
        Err(e) => Err(e),
    }
}

pub open spec fn questions_bytes(qs: Seq<QuestionView>) -> Seq<u8>
    decreases qs.len(),
{
    if qs.len() == 0 {
        Seq::empty()
    } else {
        questions_bytes(qs.drop_last()) + question_bytes(qs.last())
    }
}

pub open spec fn answers_bytes(ans: Seq<AnswerView>) -> Seq<u8>
    decreases ans.len(),
{
    if ans.len() == 0 {
        Seq::empty()
    } else {
        answers_bytes(ans.drop_last()) + answer_bytes(ans.last())
    }
}

/// Decoding `n` questions one after another from `pos`.
pub open spec fn parse_questions(buf: Seq<u8>, pos: int, n: nat) -> Result<(Seq<QuestionView>, int), DnsError>
    decreases n,
{
    if n == 0 {
        Ok((Seq::empty(), pos))
    } else {
        match parse_questions(buf, pos, (n - 1) as nat) {
            Ok((qs, p)) => match parse_question(buf, p) {
                Ok((q, next)) => Ok((qs.push(q), next)),
                Err(e) => Err(e),
            },
            Err(e) => Err(e),
        }
    }
}

/// Decoding `n` records one after another from `pos`.
pub open spec fn parse_answers(buf: Seq<u8>, pos: int, n: nat) -> Result<(Seq<AnswerView>, int), DnsError>
    decreases n,
{
    if n == 0 {
        Ok((Seq::empty(), pos))
    } else {
        match parse_answers(buf, pos, (n - 1) as nat) {
            Ok((ans, p)) => match parse_answer(buf, p) {
                Ok((a, next)) => Ok((ans.push(a), next)),
                Err(e) => Err(e),
            },
            Err(e) => Err(e),
        }
    }
}

/// The wire form of a message. The two counts are taken from the sections,
/// whatever the header holds.
pub open spec fn message_bytes(m: MessageView) -> Seq<u8> {
    header_bytes(m.header.with_counts(m.questions.len() as u16, m.answers.len() as u16))
        + questions_bytes(m.questions) + answers_bytes(m.answers)
}

/// A message can be encoded: its header's packed fields fit, and each count
/// and each record's data length fits 16 bits.
pub open spec fn encodable(m: MessageView) -> bool {
    &&& m.header.well_formed()
    &&& m.questions.len() <= 0xFFFF
    &&& m.answers.len() <= 0xFFFF
    &&& forall|i: int| 0 <= i < m.answers.len() ==> #[trigger] m.answers[i].data.len() <= 0xFFFF
}

/// Encoding a message: its bytes, or `FieldOverflow` when it is not encodable.
pub open spec fn encode_message(m: MessageView) -> Result<Seq<u8>, DnsError> {
    if encodable(m) {
        Ok(message_bytes(m))
    } else {
        Err(DnsError::FieldOverflow)
    }
}

/// Decoding a message from the start of `buf`: the header, then as many
/// questions and records as its counts say. Bytes after them are ignored;
/// the position after the last record is returned.
pub open spec fn parse_message(buf: Seq<u8>) -> Result<(MessageView, int), DnsError> {
    match parse_header(buf, 0) {
        Ok((h, p)) => match parse_questions(buf, p, h.qdcount as nat) {
            Ok((qs, next)) => match parse_answers(buf, next, h.ancount as nat) {
                Ok((ans, end)) => Ok((MessageView { header: h, questions: qs, answers: ans }, end)),
                Err(e) => Err(e),
            },
            Err(e) => Err(e),
        },
        Err(e) => Err(e),
    }
}

/// A question that decodes back to itself: its name is in label form.
pub open spec fn valid_question(q: QuestionView) -> bool {
    valid_name(q.name)
}

/// A record that decodes back to itself: its name is in label form and its
/// length field is the length of its data, which fits 16 bits.
pub open spec fn valid_answer(a: AnswerView) -> bool {
    &&& valid_name(a.name)
    &&& a.data.len() <= 0xFFFF
    &&& a.data_length == a.data.len()
}

/// A message that decodes back to itself: a well-formed header whose two
/// counts match the sections, and valid questions and records.
pub open spec fn valid_message(m: MessageView) -> bool {
    &&& m.header.well_formed()
    &&& m.header.qdcount == m.questions.len()
    &&& m.header.ancount == m.answers.len()
    &&& forall|i: int| 0 <= i < m.questions.len() ==> valid_question(#[trigger] m.questions[i])
    &&& forall|i: int| 0 <= i < m.answers.len() ==> valid_answer(#[trigger] m.answers[i])
}

/// Once decoding the first `k` questions fails, decoding more fails the same way.
pub proof fn lemma_questions_err_persists(buf: Seq<u8>, pos: int, k: nat, n: nat)
    requires
        k <= n,
        parse_questions(buf, pos, k) is Err,
    ensures
        parse_questions(buf, pos, n) == parse_questions(buf, pos, k),
    decreases n - k,
{
    if k < n {
        lemma_questions_err_persists(buf, pos, k, (n - 1) as nat);
    }
}

/// Once decoding the first `k` records fails, decoding more fails the same way.
pub proof fn lemma_answers_err_persists(buf: Seq<u8>, pos: int, k: nat, n: nat)
    requires
        k <= n,
        parse_answers(buf, pos, k) is Err,
    ensures
        parse_answers(buf, pos, n) == parse_answers(buf, pos, k),
    decreases n - k,
{
    if k < n {
        lemma_answers_err_persists(buf, pos, k, (n - 1) as nat);
    }
}

} // verus!

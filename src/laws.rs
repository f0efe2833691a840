//! Laws of the codec and of the two responders, proved over the spec
//! functions of `wire` and `resolver`.

use vstd::prelude::*;
use crate::message::{AnswerView, DnsError, Header, MessageView, QuestionView};
use crate::resolver::{
    first_answer_of, first_answers, forward_query, merged_reply, merged_response, rcode_for, stub_answer,
    stub_reply, stub_response,
};
use crate::wire::{
    answer_bytes, answers_bytes, encodable, encode_message, header_bytes, is_pointer,
    message_bytes, name_bytes, parse_answer, parse_answers, parse_header, parse_message,
    parse_name, parse_question, parse_questions, pointer_target, question_bytes, questions_bytes,
    u16_at, u16_bytes, u32_at, u32_bytes, valid_answer, valid_message, valid_name, valid_question,
};

verus! {

/// A window of `buf` that equals `s` holds each part of `s` at the matching place.
proof fn lemma_window(buf: Seq<u8>, pos: int, s: Seq<u8>, a: int, b: int)
    requires
        0 <= pos,
        pos + s.len() <= buf.len(),
        buf.subrange(pos, pos + s.len()) == s,
        0 <= a <= b <= s.len(),
    ensures
        buf.subrange(pos + a, pos + b) == s.subrange(a, b),
{
    assert forall|k: int| 0 <= k < b - a implies buf.subrange(pos + a, pos + b)[k] == s.subrange(a, b)[k] by {
        assert(buf[pos + a + k] == buf.subrange(pos, pos + s.len())[a + k]);
    }
    assert(buf.subrange(pos + a, pos + b) =~= s.subrange(a, b));
}

proof fn lemma_u16_read(buf: Seq<u8>, i: int, x: u16)
    requires
        0 <= i,
        i + 2 <= buf.len(),
        buf.subrange(i, i + 2) == u16_bytes(x),
    ensures
        u16_at(buf, i) == x,
{
    assert(buf[i] == buf.subrange(i, i + 2)[0]);
    assert(buf[i + 1] == buf.subrange(i, i + 2)[1]);
}

proof fn lemma_u32_read(buf: Seq<u8>, i: int, x: u32)
    requires
        0 <= i,
        i + 4 <= buf.len(),
        buf.subrange(i, i + 4) == u32_bytes(x),
    ensures
        u32_at(buf, i) == x,
{
    assert(buf[i] == buf.subrange(i, i + 4)[0]);
    assert(buf[i + 1] == buf.subrange(i, i + 4)[1]);
    assert(buf[i + 2] == buf.subrange(i, i + 4)[2]);
    assert(buf[i + 3] == buf.subrange(i, i + 4)[3]);
}

proof fn lemma_header_at(buf: Seq<u8>, pos: int, h: Header)
    requires
        h.well_formed(),
        0 <= pos,
        pos + 12 <= buf.len(),
        buf.subrange(pos, pos + 12) == header_bytes(h),
    ensures
        parse_header(buf, pos) == Ok::<(Header, int), DnsError>((h, pos + 12)),
{
    let s = header_bytes(h);
    lemma_window(buf, pos, s, 0, 2);
    lemma_window(buf, pos, s, 4, 6);
    lemma_window(buf, pos, s, 6, 8);
    lemma_window(buf, pos, s, 8, 10);
    lemma_window(buf, pos, s, 10, 12);
    assert(s.subrange(0, 2) =~= u16_bytes(h.id));
    assert(s.subrange(4, 6) =~= u16_bytes(h.qdcount));
    assert(s.subrange(6, 8) =~= u16_bytes(h.ancount));
    assert(s.subrange(8, 10) =~= u16_bytes(h.nscount));
    assert(s.subrange(10, 12) =~= u16_bytes(h.arcount));
    lemma_u16_read(buf, pos, h.id);
    lemma_u16_read(buf, pos + 4, h.qdcount);
    lemma_u16_read(buf, pos + 6, h.ancount);
    lemma_u16_read(buf, pos + 8, h.nscount);
    lemma_u16_read(buf, pos + 10, h.arcount);
    assert(buf[pos + 2] == s[2]);
    assert(buf[pos + 3] == s[3]);
    let hi = buf[pos + 2];
    let lo = buf[pos + 3];
    assert(hi as int == h.qr as int * 128 + h.opcode as int * 8 + h.aa as int * 4 + h.tc as int * 2 + h.rd as int);
    assert(lo as int == h.ra as int * 128 + h.z as int * 16 + h.rcode as int);
    assert(parse_header(buf, pos)->Ok_0.0 == h);
}

/// A name in label form, written out, decodes to itself, whatever the
/// pointer limit.
proof fn lemma_name_at(buf: Seq<u8>, pos: int, limit: int, n: Seq<u8>)
    requires
        valid_name(n),
        0 <= pos,
        pos + n.len() + 1 <= buf.len(),
        buf.subrange(pos, pos + n.len() + 1) == name_bytes(n),
    ensures
        parse_name(buf, pos, limit) == Ok::<(Seq<u8>, int), DnsError>((n, pos + n.len() + 1)),
    decreases n.len(),
{
    let s = name_bytes(n);
    assert(buf[pos] == s[0]);
    if n.len() > 0 {
        let b = n[0];
        let next = pos + 1 + b;
        let rest = n.subrange(1 + b, n.len() as int);
        lemma_window(buf, pos, s, 1 + b, n.len() as int + 1);
        assert(s.subrange(1 + b, n.len() as int + 1) =~= name_bytes(rest));
        lemma_name_at(buf, next, limit, rest);
        lemma_window(buf, pos, s, 0, 1 + b);
        assert(s.subrange(0, 1 + b) + rest =~= n);
    } else {
        assert(n =~= Seq::<u8>::empty());
    }
}

proof fn lemma_question_at(buf: Seq<u8>, pos: int, q: QuestionView)
    requires
        valid_question(q),
        0 <= pos,
        pos + question_bytes(q).len() <= buf.len(),
        buf.subrange(pos, pos + question_bytes(q).len()) == question_bytes(q),
    ensures
        parse_question(buf, pos) == Ok::<(QuestionView, int), DnsError>((q, pos + question_bytes(q).len())),
{
    let s = question_bytes(q);
    let k = q.name.len() as int + 1;
    lemma_window(buf, pos, s, 0, k);
    lemma_window(buf, pos, s, k, k + 2);
    lemma_window(buf, pos, s, k + 2, k + 4);
    assert(s.subrange(0, k) =~= name_bytes(q.name));
    assert(s.subrange(k, k + 2) =~= u16_bytes(q.record_type));
    assert(s.subrange(k + 2, k + 4) =~= u16_bytes(q.class));
    lemma_name_at(buf, pos, pos, q.name);
    lemma_u16_read(buf, pos + k, q.record_type);
    lemma_u16_read(buf, pos + k + 2, q.class);
}

proof fn lemma_answer_at(buf: Seq<u8>, pos: int, a: AnswerView)
    requires
        valid_answer(a),
        0 <= pos,
        pos + answer_bytes(a).len() <= buf.len(),
        buf.subrange(pos, pos + answer_bytes(a).len()) == answer_bytes(a),
    ensures
        parse_answer(buf, pos) == Ok::<(AnswerView, int), DnsError>((a, pos + answer_bytes(a).len())),
{
    let s = answer_bytes(a);
    let k = a.name.len() as int + 1;
    let len = a.data.len() as int;
    lemma_window(buf, pos, s, 0, k);
    lemma_window(buf, pos, s, k, k + 2);
    lemma_window(buf, pos, s, k + 2, k + 4);
    lemma_window(buf, pos, s, k + 4, k + 8);
    lemma_window(buf, pos, s, k + 8, k + 10);
    lemma_window(buf, pos, s, k + 10, k + 10 + len);
    assert(s.subrange(0, k) =~= name_bytes(a.name));
    assert(s.subrange(k, k + 2) =~= u16_bytes(a.record_type));
    assert(s.subrange(k + 2, k + 4) =~= u16_bytes(a.class));
    assert(s.subrange(k + 4, k + 8) =~= u32_bytes(a.ttl));
    assert(s.subrange(k + 8, k + 10) =~= u16_bytes(a.data.len() as u16));
    assert(s.subrange(k + 10, k + 10 + len) =~= a.data);
    lemma_name_at(buf, pos, pos, a.name);
    lemma_u16_read(buf, pos + k, a.record_type);
    lemma_u16_read(buf, pos + k + 2, a.class);
    lemma_u32_read(buf, pos + k + 4, a.ttl);
    lemma_u16_read(buf, pos + k + 8, a.data.len() as u16);
}

proof fn lemma_questions_at(buf: Seq<u8>, pos: int, qs: Seq<QuestionView>)
    requires
        forall|i: int| 0 <= i < qs.len() ==> valid_question(#[trigger] qs[i]),
        0 <= pos,
        pos + questions_bytes(qs).len() <= buf.len(),
        buf.subrange(pos, pos + questions_bytes(qs).len()) == questions_bytes(qs),
    ensures
        parse_questions(buf, pos, qs.len()) == Ok::<(Seq<QuestionView>, int), DnsError>(
            (qs, pos + questions_bytes(qs).len()),
        ),
    decreases qs.len(),
{
    if qs.len() > 0 {
        let init = qs.drop_last();
        let s = questions_bytes(qs);
        let k = questions_bytes(init).len() as int;
        lemma_window(buf, pos, s, 0, k);
        lemma_window(buf, pos, s, k, s.len() as int);
        assert(s.subrange(0, k) =~= questions_bytes(init));
        assert(s.subrange(k, s.len() as int) =~= question_bytes(qs.last()));
        assert forall|i: int| 0 <= i < init.len() implies valid_question(#[trigger] init[i]) by {
            assert(init[i] == qs[i]);
        }
        lemma_questions_at(buf, pos, init);
        lemma_question_at(buf, pos + k, qs.last());
        assert(init.push(qs.last()) =~= qs);
    } else {
        assert(qs =~= Seq::<QuestionView>::empty());
    }
}

proof fn lemma_answers_at(buf: Seq<u8>, pos: int, ans: Seq<AnswerView>)
    requires
        forall|i: int| 0 <= i < ans.len() ==> valid_answer(#[trigger] ans[i]),
        0 <= pos,
        pos + answers_bytes(ans).len() <= buf.len(),
        buf.subrange(pos, pos + answers_bytes(ans).len()) == answers_bytes(ans),
    ensures
        parse_answers(buf, pos, ans.len()) == Ok::<(Seq<AnswerView>, int), DnsError>(
            (ans, pos + answers_bytes(ans).len()),
        ),
    decreases ans.len(),
{
    if ans.len() > 0 {
        let init = ans.drop_last();
        let s = answers_bytes(ans);
        let k = answers_bytes(init).len() as int;
        lemma_window(buf, pos, s, 0, k);
        lemma_window(buf, pos, s, k, s.len() as int);
        assert(s.subrange(0, k) =~= answers_bytes(init));
        assert(s.subrange(k, s.len() as int) =~= answer_bytes(ans.last()));
        assert forall|i: int| 0 <= i < init.len() implies valid_answer(#[trigger] init[i]) by {
            assert(init[i] == ans[i]);
        }
        lemma_answers_at(buf, pos, init);
        lemma_answer_at(buf, pos + k, ans.last());
        assert(init.push(ans.last()) =~= ans);
    } else {
        assert(ans =~= Seq::<AnswerView>::empty());
    }
}

/// Whatever a name decodes to is in label form, and reading it ends after
/// where it started.
proof fn lemma_parsed_name_valid(buf: Seq<u8>, pos: int, limit: int)
    requires
        parse_name(buf, pos, limit) is Ok,
    ensures
        valid_name(parse_name(buf, pos, limit)->Ok_0.0),
        pos < parse_name(buf, pos, limit)->Ok_0.1 <= buf.len(),
    decreases limit, buf.len() - pos,
{
    let b = buf[pos];
    if b == 0 {
        assert(valid_name(Seq::<u8>::empty()));
    } else if is_pointer(b) {
        let target = pointer_target(buf, pos);
        lemma_parsed_name_valid(buf, target, target);
    } else {
        let next = pos + 1 + b;
        lemma_parsed_name_valid(buf, next, limit);
        let rest = parse_name(buf, next, limit)->Ok_0.0;
        let n = buf.subrange(pos, next) + rest;
        assert(n.subrange(1 + b, n.len() as int) =~= rest);
    }
}

/// Decoding `n` questions gives `n` valid ones.
proof fn lemma_parsed_questions_valid(buf: Seq<u8>, pos: int, n: nat)
    requires
        parse_questions(buf, pos, n) is Ok,
    ensures
        ({
            let qs = parse_questions(buf, pos, n)->Ok_0.0;
            qs.len() == n && forall|i: int| 0 <= i < qs.len() ==> valid_question(#[trigger] qs[i])
        }),
    decreases n,
{
    if n > 0 {
        let (qs, p) = parse_questions(buf, pos, (n - 1) as nat)->Ok_0;
        lemma_parsed_questions_valid(buf, pos, (n - 1) as nat);
        lemma_parsed_name_valid(buf, p, p);
        let q = parse_question(buf, p)->Ok_0.0;
        assert forall|i: int| 0 <= i < qs.push(q).len() implies valid_question(#[trigger] qs.push(q)[i]) by {
            if i < qs.len() {
                assert(qs.push(q)[i] == qs[i]);
            }
        }
    }
}

/// Decoding `n` records gives `n` valid ones.
proof fn lemma_parsed_answers_valid(buf: Seq<u8>, pos: int, n: nat)
    requires
        parse_answers(buf, pos, n) is Ok,
    ensures
        ({
            let ans = parse_answers(buf, pos, n)->Ok_0.0;
            ans.len() == n && forall|i: int| 0 <= i < ans.len() ==> valid_answer(#[trigger] ans[i])
        }),
    decreases n,
{
    if n > 0 {
        let (ans, p) = parse_answers(buf, pos, (n - 1) as nat)->Ok_0;
        lemma_parsed_answers_valid(buf, pos, (n - 1) as nat);
        lemma_parsed_name_valid(buf, p, p);
        let a = parse_answer(buf, p)->Ok_0.0;
        assert forall|i: int| 0 <= i < ans.push(a).len() implies valid_answer(#[trigger] ans.push(a)[i]) by {
            if i < ans.len() {
                assert(ans.push(a)[i] == ans[i]);
            }
        }
    }
}

/// Every decoded message is valid: it decodes back from its own encoding.
pub proof fn decoded_message_is_valid(buf: Seq<u8>)
    requires
        parse_message(buf) is Ok,
    ensures
        valid_message(parse_message(buf)->Ok_0.0),
{
    let (h, p) = parse_header(buf, 0)->Ok_0;
    let (qs, q_end) = parse_questions(buf, p, h.qdcount as nat)->Ok_0;
    lemma_parsed_questions_valid(buf, p, h.qdcount as nat);
    lemma_parsed_answers_valid(buf, q_end, h.ancount as nat);
}

/// A well-formed header decodes from its 12 bytes to itself.
pub proof fn header_round_trip(h: Header)
    requires
        h.well_formed(),
    ensures
        header_bytes(h).len() == 12,
        parse_header(header_bytes(h), 0) == Ok::<(Header, int), DnsError>((h, 12)),
{
    let s = header_bytes(h);
    assert(s.subrange(0, 12) =~= s);
    lemma_header_at(s, 0, h);
}

/// A question whose name is in label form decodes from its encoding to itself.
pub proof fn question_round_trip(q: QuestionView)
    requires
        valid_question(q),
    ensures
        parse_question(question_bytes(q), 0) == Ok::<(QuestionView, int), DnsError>(
            (q, question_bytes(q).len() as int),
        ),
{
    let s = question_bytes(q);
    assert(s.subrange(0, s.len() as int) =~= s);
    lemma_question_at(s, 0, q);
}

/// A valid record decodes from its encoding to itself.
pub proof fn answer_round_trip(a: AnswerView)
    requires
        valid_answer(a),
    ensures
        parse_answer(answer_bytes(a), 0) == Ok::<(AnswerView, int), DnsError>(
            (a, answer_bytes(a).len() as int),
        ),
{
    let s = answer_bytes(a);
    assert(s.subrange(0, s.len() as int) =~= s);
    lemma_answer_at(s, 0, a);
}

/// A valid message encodes, and decodes from its encoding to itself, all
/// bytes read.
pub proof fn message_round_trip(m: MessageView)
    requires
        valid_message(m),
    ensures
        encode_message(m) == Ok::<Seq<u8>, DnsError>(message_bytes(m)),
        parse_message(message_bytes(m)) == Ok::<(MessageView, int), DnsError>(
            (m, message_bytes(m).len() as int),
        ),
{
    lemma_valid_is_encodable(m);
    lemma_message_at(m);
}

proof fn lemma_valid_is_encodable(m: MessageView)
    requires
        valid_message(m),
    ensures
        encodable(m),
        encode_message(m) == Ok::<Seq<u8>, DnsError>(message_bytes(m)),
{
    assert forall|i: int| 0 <= i < m.answers.len() implies #[trigger] m.answers[i].data.len() <= 0xFFFF by {
        assert(valid_answer(m.answers[i]));
    }
}

proof fn lemma_split3(s: Seq<u8>, a: Seq<u8>, b: Seq<u8>, c: Seq<u8>)
    requires
        s == a + b + c,
    ensures
        s.subrange(0, a.len() as int) == a,
        s.subrange(a.len() as int, (a.len() + b.len()) as int) == b,
        s.subrange((a.len() + b.len()) as int, s.len() as int) == c,
{
    assert(s.subrange(0, a.len() as int) =~= a);
    assert(s.subrange(a.len() as int, (a.len() + b.len()) as int) =~= b);
    assert(s.subrange((a.len() + b.len()) as int, s.len() as int) =~= c);
}

#[verifier::rlimit(40)]
proof fn lemma_message_at(m: MessageView)
    requires
        valid_message(m),
    ensures
        parse_message(message_bytes(m)) == Ok::<(MessageView, int), DnsError>(
            (m, message_bytes(m).len() as int),
        ),
{
    let h = m.header.with_counts(m.questions.len() as u16, m.answers.len() as u16);
    assert(h == m.header);
    let s = message_bytes(m);
    let hb = header_bytes(h);
    let qb = questions_bytes(m.questions);
    let ab = answers_bytes(m.answers);
    assert(hb.len() == 12);
    let k = 12 + qb.len() as int;
    lemma_split3(s, hb, qb, ab);
    lemma_header_at(s, 0, h);
    lemma_questions_at(s, 12, m.questions);
    lemma_answers_at(s, k, m.answers);
}

/// Encoding a message writes the lengths of its sections as the question
/// and answer counts, whatever counts its header held; the other header
/// fields are written as they are.
pub proof fn encoded_counts(m: MessageView)
    requires
        encodable(m),
    ensures
        encode_message(m) is Ok,
        parse_header(encode_message(m)->Ok_0, 0) == Ok::<(Header, int), DnsError>(
            (m.header.with_counts(m.questions.len() as u16, m.answers.len() as u16), 12),
        ),
        parse_header(encode_message(m)->Ok_0, 0)->Ok_0.0.qdcount == m.questions.len(),
        parse_header(encode_message(m)->Ok_0, 0)->Ok_0.0.ancount == m.answers.len(),
{
    let h = m.header.with_counts(m.questions.len() as u16, m.answers.len() as u16);
    let s = message_bytes(m);
    assert(s.subrange(0, 12) =~= header_bytes(h));
    lemma_header_at(s, 0, h);
}

/// A name whose labels end in a compression pointer to an earlier name
/// decodes to its own labels followed by what that earlier name decodes to.
/// With no labels before the pointer, it decodes to exactly the earlier name.
pub proof fn compressed_name(buf: Seq<u8>, pos: int, labels: Seq<u8>)
    requires
        valid_name(labels),
        0 <= pos,
        pos + labels.len() + 2 <= buf.len(),
        buf.subrange(pos, pos + labels.len()) == labels,
        is_pointer(buf[pos + labels.len()]),
        pointer_target(buf, pos + labels.len()) < pos,
        parse_name(buf, pointer_target(buf, pos + labels.len()), pointer_target(buf, pos + labels.len())) is Ok,
    ensures
        parse_name(buf, pos, pos) == Ok::<(Seq<u8>, int), DnsError>(
            (
                labels + parse_name(
                    buf,
                    pointer_target(buf, pos + labels.len()),
                    pointer_target(buf, pos + labels.len()),
                )->Ok_0.0,
                pos + labels.len() + 2,
            ),
        ),
{
    lemma_labels_then_pointer(buf, pos, pos, labels);
}

proof fn lemma_labels_then_pointer(buf: Seq<u8>, pos: int, limit: int, labels: Seq<u8>)
    requires
        valid_name(labels),
        0 <= pos,
        pos + labels.len() + 2 <= buf.len(),
        buf.subrange(pos, pos + labels.len()) == labels,
        is_pointer(buf[pos + labels.len()]),
        pointer_target(buf, pos + labels.len()) < limit,
        parse_name(buf, pointer_target(buf, pos + labels.len()), pointer_target(buf, pos + labels.len())) is Ok,
    ensures
        parse_name(buf, pos, limit) == Ok::<(Seq<u8>, int), DnsError>(
            (
                labels + parse_name(
                    buf,
                    pointer_target(buf, pos + labels.len()),
                    pointer_target(buf, pos + labels.len()),
                )->Ok_0.0,
                pos + labels.len() + 2,
            ),
        ),
    decreases labels.len(),
{
    let t = pointer_target(buf, pos + labels.len());
    let suffix = parse_name(buf, t, t)->Ok_0.0;
    if labels.len() == 0 {
        assert(labels + suffix =~= suffix);
    } else {
        let b = labels[0];
        assert(buf[pos] == buf.subrange(pos, pos + labels.len())[0]);
        let next = pos + 1 + b;
        let rest = labels.subrange(1 + b, labels.len() as int);
        lemma_window(buf, pos, labels, 1 + b, labels.len() as int);
        lemma_window(buf, pos, labels, 0, 1 + b);
        assert(next + rest.len() == pos + labels.len());
        lemma_labels_then_pointer(buf, next, limit, rest);
        assert(labels.subrange(0, 1 + b) + (rest + suffix) =~= labels + suffix);
    }
}

/// The stub responder answers every request that decodes. Its reply
/// decodes to the request's questions, one synthetic answer for each, both
/// counts equal to the number of questions, the request's id, opcode and rd,
/// qr set, and rcode 0 for opcode 0 and 4 for any other opcode.
pub proof fn stub_reply_law(data: Seq<u8>)
    requires
        parse_message(data) is Ok,
    ensures
        ({
            let req = parse_message(data)->Ok_0.0;
            let n = req.questions.len();
            &&& stub_reply(data) is Ok
            &&& parse_message(stub_reply(data)->Ok_0) is Ok
            &&& ({
                let m = parse_message(stub_reply(data)->Ok_0)->Ok_0.0;
                &&& m == stub_response(req)
                &&& m.header.rcode == (if req.header.opcode == 0 { 0u8 } else { 4u8 })
                &&& m.header.qr == 1
                &&& m.header.id == req.header.id
                &&& m.header.opcode == req.header.opcode
                &&& m.header.rd == req.header.rd
                &&& m.header.qdcount == n
                &&& m.header.ancount == n
                &&& m.questions == req.questions
                &&& m.answers.len() == n
                &&& forall|i: int| 0 <= i < n ==> #[trigger] m.answers[i] == stub_answer(req.questions[i])
            })
        }),
{
    let req = parse_message(data)->Ok_0.0;
    decoded_message_is_valid(data);
    let m = stub_response(req);
    assert forall|i: int| 0 <= i < m.answers.len() implies valid_answer(#[trigger] m.answers[i]) by {
        assert(valid_question(req.questions[i]));
    }
    assert(valid_message(m));
    message_round_trip(m);
}

/// With every upstream reply carrying an answer, the first answers come
/// out one per reply, in order, each valid.
proof fn lemma_first_answers_ok(replies: Seq<Seq<u8>>)
    requires
        forall|i: int| 0 <= i < replies.len() ==> (#[trigger] first_answer_of(replies[i])) is Ok,
    ensures
        first_answers(replies) is Ok,
        ({
            let ans = first_answers(replies)->Ok_0;
            &&& ans.len() == replies.len()
            &&& forall|i: int|
                0 <= i < replies.len() ==> #[trigger] ans[i] == first_answer_of(replies[i])->Ok_0
                    && valid_answer(ans[i])
        }),
    decreases replies.len(),
{
    if replies.len() > 0 {
        let init = replies.drop_last();
        assert forall|i: int| 0 <= i < init.len() implies (#[trigger] first_answer_of(init[i])) is Ok by {
            assert(init[i] == replies[i]);
        }
        lemma_first_answers_ok(init);
        let last = replies.last();
        assert(first_answer_of(replies[replies.len() - 1]) is Ok);
        reveal(first_answer_of);
        decoded_message_is_valid(last);
        let ans = first_answers(init)->Ok_0;
        let a = first_answer_of(last)->Ok_0;
        assert(valid_answer(a));
        assert forall|i: int| 0 <= i < replies.len() implies #[trigger] ans.push(a)[i] == first_answer_of(replies[i])->Ok_0
            && valid_answer(ans.push(a)[i]) by {
            if i < init.len() {
                assert(init[i] == replies[i]);
                assert(ans.push(a)[i] == ans[i]);
            }
        }
    }
}

/// Forwarding: when each upstream reply carries an answer, the merged
/// response decodes to the request's questions unchanged, one answer per
/// question, the first answer of the matching reply, in question order,
/// with the answer count equal to the number of questions.
pub proof fn forwarded_answers_in_order(req: MessageView, replies: Seq<Seq<u8>>)
    requires
        valid_message(req),
        replies.len() == req.questions.len(),
        forall|i: int| 0 <= i < replies.len() ==> (#[trigger] first_answer_of(replies[i])) is Ok,
    ensures
        merged_reply(req, replies) is Ok,
        parse_message(merged_reply(req, replies)->Ok_0) is Ok,
        ({
            let m = parse_message(merged_reply(req, replies)->Ok_0)->Ok_0.0;
            &&& m.questions == req.questions
            &&& m.header.qdcount == req.questions.len()
            &&& m.header.ancount == replies.len()
            &&& m.header.id == req.header.id
            &&& m.header.qr == 1
            &&& m.header.rcode == rcode_for(req.header.opcode)
            &&& m.header.opcode == req.header.opcode
            &&& m.header.rd == req.header.rd
            &&& m.answers.len() == replies.len()
            &&& forall|i: int| 0 <= i < replies.len() ==> #[trigger] m.answers[i] == first_answer_of(replies[i])->Ok_0
        }),
{
    lemma_first_answers_ok(replies);
    let m = merged_response(req, replies)->Ok_0;
    let ans = first_answers(replies)->Ok_0;
    assert(m.answers == ans);
    assert forall|i: int| 0 <= i < m.answers.len() implies valid_answer(#[trigger] m.answers[i]) by {
        assert(ans[i] == first_answer_of(replies[i])->Ok_0 && valid_answer(ans[i]));
    }
    assert(valid_message(m));
    message_round_trip(m);
    assert forall|i: int| 0 <= i < replies.len() implies #[trigger] m.answers[i] == first_answer_of(replies[i])->Ok_0 by {
        assert(ans[i] == first_answer_of(replies[i])->Ok_0 && valid_answer(ans[i]));
    }
}

/// Each single-question query sent upstream encodes, and decodes to the
/// request's header with one question and no answers, the question being
/// the request's question at that index.
pub proof fn forward_query_round_trip(req: MessageView, i: int)
    requires
        valid_message(req),
        0 <= i < req.questions.len(),
    ensures
        encode_message(forward_query(req, i)) is Ok,
        parse_message(encode_message(forward_query(req, i))->Ok_0) == Ok::<(MessageView, int), DnsError>(
            (forward_query(req, i), encode_message(forward_query(req, i))->Ok_0.len() as int),
        ),
        forward_query(req, i).questions == seq![req.questions[i]],
        forward_query(req, i).header.qdcount == 1,
        forward_query(req, i).header.ancount == 0,
        forward_query(req, i).header.id == req.header.id,
{
    let q = forward_query(req, i);
    assert(valid_question(q.questions[0]));
    assert(valid_message(q));
    message_round_trip(q);
}

/// Forwarding a request with two questions: when each of the two upstream
/// replies carries an answer, the merged response decodes to the two
/// questions unchanged and exactly two answers, the first answer of the
/// reply to the first question, then that of the reply to the second, with
/// the answer count 2.
pub proof fn two_questions_forwarded(req: MessageView, replies: Seq<Seq<u8>>)
    requires
        valid_message(req),
        req.questions.len() == 2,
        replies.len() == 2,
        first_answer_of(replies[0]) is Ok,
        first_answer_of(replies[1]) is Ok,
    ensures
        merged_reply(req, replies) is Ok,
        parse_message(merged_reply(req, replies)->Ok_0) is Ok,
        ({
            let m = parse_message(merged_reply(req, replies)->Ok_0)->Ok_0.0;
            &&& m.questions == req.questions
            &&& m.header.ancount == 2
            &&& m.answers == seq![first_answer_of(replies[0])->Ok_0, first_answer_of(replies[1])->Ok_0]
        }),
{
    assert forall|i: int| 0 <= i < replies.len() implies (#[trigger] first_answer_of(replies[i])) is Ok by {
        if i == 0 {
        } else {
            assert(i == 1);
        }
    }
    forwarded_answers_in_order(req, replies);
    let m = parse_message(merged_reply(req, replies)->Ok_0)->Ok_0.0;
    assert(m.answers[0] == first_answer_of(replies[0])->Ok_0);
    assert(m.answers[1] == first_answer_of(replies[1])->Ok_0);
    assert(m.answers =~= seq![first_answer_of(replies[0])->Ok_0, first_answer_of(replies[1])->Ok_0]);
}

} // verus!

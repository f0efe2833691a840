//! The two ways of answering a request: the stub responder, which answers
//! every question itself, and the forwarding resolver, which asks an
//! upstream server one question at a time and merges the first answer of
//! each reply.

use vstd::prelude::*;
use crate::codec::{bytes_result, push_all};
use crate::message::{
    Answer, AnswerView, DnsError, Header, Message, MessageView, Question, QuestionView,
};
use crate::wire::{encode_message, encodable, parse_message, parse_questions};

verus! {

/// The response code for a request's opcode: 0 for a standard query, 4
/// (not implemented) for anything else.
pub open spec fn rcode_for(opcode: u8) -> u8 {
    if opcode == 0 {
        0
    } else {
        4
    }
}

/// The header of a response to `req`: id, opcode and rd echoed, qr set,
/// rcode by the opcode policy, the given counts, everything else as in the
/// default header.
pub open spec fn response_header(req: Header, qd: nat, an: nat) -> Header {
    Header {
        id: req.id,
        opcode: req.opcode,
        rd: req.rd,
        rcode: rcode_for(req.opcode),
        qdcount: qd as u16,
        ancount: an as u16,
        ..Header::spec_default()
    }
}

/// The synthetic A record that the stub responder gives for a question:
/// the question's name and class, type A (1) whatever type was asked for.
pub open spec fn stub_answer(q: QuestionView) -> AnswerView {
    AnswerView {
        name: q.name,
        record_type: 1,
        class: q.class,
        ttl: 60,
        data_length: 4,
        data: seq![8u8, 8u8, 8u8, 8u8],
    }
}

/// The stub response to a request: every question echoed, one synthetic
/// answer for each.
pub open spec fn stub_response(req: MessageView) -> MessageView {
    MessageView {
        header: response_header(req.header, req.questions.len(), req.questions.len()),
        questions: req.questions,
        answers: req.questions.map_values(|q: QuestionView| stub_answer(q)),
    }
}

/// What the stub responder sends for the request bytes `data`.
pub open spec fn stub_reply(data: Seq<u8>) -> Result<Seq<u8>, DnsError> {
    match parse_message(data) {
        Ok((req, _)) => encode_message(stub_response(req)),
        Err(e) => Err(e),
    }
}

/// The single-question query sent upstream for question `i` of `req`: the
/// request's header, question `i` alone, no answers.
pub open spec fn forward_query(req: MessageView, i: int) -> MessageView {
    MessageView {
        header: req.header.with_counts(1, 0),
        questions: seq![req.questions[i]],
        answers: Seq::empty(),
    }
}

/// The first answer of a reply; fails when the reply does not decode or
/// holds no answer.
#[verifier::opaque]
pub open spec fn first_answer_of(reply: Seq<u8>) -> Result<AnswerView, DnsError> {
    match parse_message(reply) {
        Ok((m, _)) => if m.answers.len() > 0 {
            Ok(m.answers[0])
        } else {
            Err(DnsError::MissingAnswer)
        },
        Err(e) => Err(e),
    }
}

/// The first answer of each reply, in order; fails on the first reply that
/// does not decode or holds no answer.
pub open spec fn first_answers(replies: Seq<Seq<u8>>) -> Result<Seq<AnswerView>, DnsError>
    decreases replies.len(),
{
    if replies.len() == 0 {
        Ok(Seq::empty())
    } else {
        match first_answers(replies.drop_last()) {
            Ok(ans) => match first_answer_of(replies.last()) {
                Ok(a) => Ok(ans.push(a)),
                Err(e) => Err(e),
            },
            Err(e) => Err(e),
        }
    }
}

/// The merged response to `req` from one upstream reply per question.
pub open spec fn merged_response(req: MessageView, replies: Seq<Seq<u8>>) -> Result<MessageView, DnsError> {
    if replies.len() != req.questions.len() {
        Err(DnsError::MissingAnswer)
    } else {
        match first_answers(replies) {
            Ok(ans) => Ok(
                MessageView {
                    header: response_header(req.header, req.questions.len(), ans.len()),
                    questions: req.questions,
                    answers: ans,
                },
            ),
            Err(e) => Err(e),
        }
    }
}

/// What the forwarding resolver sends back for `req`, given the replies.
pub open spec fn merged_reply(req: MessageView, replies: Seq<Seq<u8>>) -> Result<Seq<u8>, DnsError> {
    match merged_response(req, replies) {
        Ok(m) => encode_message(m),
        Err(e) => Err(e),
    }
}

/// The byte views of a list of datagrams.
pub open spec fn datagrams(v: Seq<Vec<u8>>) -> Seq<Seq<u8>> {
    v.map_values(|d: Vec<u8>| d@)
}

/// Decoding `n` questions gives `n` of them.
pub proof fn lemma_parse_questions_len(buf: Seq<u8>, pos: int, n: nat)
    requires
        parse_questions(buf, pos, n) is Ok,
    ensures
        parse_questions(buf, pos, n)->Ok_0.0.len() == n,
    decreases n,
{
    if n > 0 {
        lemma_parse_questions_len(buf, pos, (n - 1) as nat);
    }
}

/// The header of a response to `req`.
fn make_response_header(req: &Header, qd: usize, an: usize) -> (r: Header)
    ensures
        r == response_header(*req, qd as nat, an as nat),
{
    let mut h = Header::default();
    h.id = req.id;
    h.opcode = req.opcode;
    h.rd = req.rd;
    h.rcode = if req.opcode == 0 { 0 } else { 4 };
    h.qdcount = qd as u16;
    h.ancount = an as u16;
    h
}

impl Message {
    /// A fresh message: the default header, no questions, no answers.
    pub fn new() -> (r: Message)
        ensures
            r@.header == Header::spec_default(),
            r@.questions.len() == 0,
            r@.answers.len() == 0,
    {
        Message { header: Header::default(), questions: Vec::new(), answers: Vec::new() }
    }
}

impl Answer {
    /// The stub responder's answer to a question: same name and class,
    /// type A (1) whatever the question's type, ttl 60, data 8.8.8.8.
    pub fn from_question(question: &Question) -> (r: Answer)
        ensures
            r@ == stub_answer(question@),
            r.record_type == 1,
    {
        let mut name: Vec<u8> = Vec::new();
        push_all(&mut name, question.name.as_slice());
        let data: Vec<u8> = vec![8, 8, 8, 8];
        assert(name@ =~= question.name@);
        assert(data@ =~= seq![8u8, 8u8, 8u8, 8u8]);
        Answer {
            name,
            record_type: 1,
            class: question.class,
            ttl: 60,
            data_length: 4,
            data,
        }
    }
}

/// Answers a request in stub mode: decodes it, echoes each question with a
/// synthetic A record, and encodes the response. Fails only when the
/// request does not decode.
pub fn handle_request(data: &[u8]) -> (r: Result<Vec<u8>, DnsError>)
    ensures
        bytes_result(r) == stub_reply(data@),
        r is Ok <==> parse_message(data@) is Ok,
{
    let request = match Message::from_bytes(data) {
        Ok((m, _)) => m,
        Err(e) => return Err(e),
    };
    let ghost req = request@;
    let mut response = Message::new();
    let mut i: usize = 0;
    while i < request.questions.len()
        invariant
            req == request@,
            i <= req.questions.len(),
            response@.header == Header::spec_default(),
            response@.questions == req.questions.take(i as int),
            response@.answers == req.questions.take(i as int).map_values(|q: QuestionView| stub_answer(q)),
        decreases req.questions.len() - i,
    {
        let q = request.questions[i].duplicate();
        let a = Answer::from_question(&request.questions[i]);
        let ghost qs = response@.questions;
        let ghost ans = response@.answers;
        response.questions.push(q);
        response.answers.push(a);
        assert(response@.questions =~= qs.push(q@));
        assert(response@.answers =~= ans.push(a@));
        i = i + 1;
        assert(req.questions.take(i as int) =~= req.questions.take(i - 1).push(req.questions[i - 1]));
        assert(response@.questions =~= req.questions.take(i as int));
        assert(response@.answers =~= req.questions.take(i as int).map_values(|q: QuestionView| stub_answer(q)));
    }
    assert(req.questions.take(i as int) =~= req.questions);
    response.header = make_response_header(&request.header, response.questions.len(), response.answers.len());
    proof {
        let (m, p) = parse_message(data@)->Ok_0;
        lemma_parse_questions_len(data@, 12, m.header.qdcount as nat);
        assert(response@ == stub_response(req));
        assert(encodable(response@));
    }
    response.to_bytes()
}

/// Encodes one single-question query per question of `request`, in order,
/// each with the request's header. Fails with `FieldOverflow` exactly when
/// that header does not encode.
pub fn forward_queries(request: &Message) -> (r: Result<Vec<Vec<u8>>, DnsError>)
    ensures
        match r {
            Ok(v) => {
                &&& request.header.well_formed()
                &&& v@.len() == request@.questions.len()
                &&& forall|i: int|
                    0 <= i < v@.len() ==> encode_message(forward_query(request@, i)) == Ok::<Seq<u8>, DnsError>(
                        #[trigger] v@[i]@,
                    )
            },
            Err(e) => !request.header.well_formed() && e == DnsError::FieldOverflow,
        },
{
    let ghost req = request@;
    let mut queries: Vec<Vec<u8>> = Vec::new();
    let mut i: usize = 0;
    while i < request.questions.len()
        invariant
            req == request@,
            i <= req.questions.len(),
            queries@.len() == i,
            i > 0 ==> request.header.well_formed(),
            forall|k: int|
                0 <= k < i ==> encode_message(forward_query(req, k)) == Ok::<Seq<u8>, DnsError>(
                    #[trigger] queries@[k]@,
                ),
        decreases req.questions.len() - i,
    {
        let mut header = request.header;
        header.qdcount = 1;
        let query = Message {
            header,
            questions: vec![request.questions[i].duplicate()],
            answers: Vec::new(),
        };
        assert(query@.questions =~= seq![req.questions[i as int]]);
        assert(query@.answers =~= Seq::<AnswerView>::empty());
        assert(query@.header.with_counts(1, 0) == req.header.with_counts(1, 0));
        let bytes = match query.to_bytes() {
            Ok(b) => b,
            Err(e) => return Err(e),
        };
        proof {
            assert(encode_message(forward_query(req, i as int)) == encode_message(query@));
        }
        queries.push(bytes);
        i = i + 1;
    }
    if request.questions.len() == 0 {
        if request.header.qr >= 2 || request.header.opcode >= 16 || request.header.aa >= 2
            || request.header.tc >= 2 || request.header.rd >= 2 || request.header.ra >= 2
            || request.header.z >= 8 || request.header.rcode >= 16 {
            return Err(DnsError::FieldOverflow);
        }
    }
    Ok(queries)
}

/// The first answer of an upstream reply.
pub fn first_answer(reply: &[u8]) -> (r: Result<Answer, DnsError>)
    ensures
        match r {
            Ok(a) => first_answer_of(reply@) == Ok::<AnswerView, DnsError>(a@),
            Err(e) => first_answer_of(reply@) == Err::<AnswerView, DnsError>(e),
        },
{
    reveal(first_answer_of);
    let reply = match Message::from_bytes(reply) {
        Ok((m, _)) => m,
        Err(e) => return Err(e),
    };
    if reply.answers.len() == 0 {
        return Err(DnsError::MissingAnswer);
    }
    Ok(reply.answers[0].duplicate())
}

/// Builds the forwarding resolver's response to `request` from the
/// upstream replies, one per question in order: the questions echoed, the
/// first answer of each reply, and a response header by the same policy as
/// the stub responder.
pub fn merge_replies(request: &Message, replies: &Vec<Vec<u8>>) -> (r: Result<Vec<u8>, DnsError>)
    ensures
        bytes_result(r) == merged_reply(request@, datagrams(replies@)),
{
    let ghost req = request@;
    let ghost rs = datagrams(replies@);
    if replies.len() != request.questions.len() {
        return Err(DnsError::MissingAnswer);
    }
    let mut answers: Vec<Answer> = Vec::new();
    let mut i: usize = 0;
    assert(rs.take(0) =~= Seq::<Seq<u8>>::empty());
    assert(answers@.map_values(|a: Answer| a@) =~= Seq::<AnswerView>::empty());
    while i < replies.len()
        invariant
            rs == datagrams(replies@),
            req == request@,
            replies@.len() == req.questions.len(),
            i <= replies@.len(),
            first_answers(rs.take(i as int)) == Ok::<Seq<AnswerView>, DnsError>(
                answers@.map_values(|a: Answer| a@),
            ),
        decreases replies@.len() - i,
    {
        assert(rs.take(i + 1).drop_last() =~= rs.take(i as int));
        assert(rs.take(i + 1).last() == rs[i as int]);
        assert(rs[i as int] == replies@[i as int]@);
        let a = match first_answer(replies[i].as_slice()) {
            Ok(a) => a,
            Err(e) => {
                assert(first_answers(rs.take(i + 1)) == Err::<Seq<AnswerView>, DnsError>(e));
                proof { lemma_first_answers_err_persists(rs, (i + 1) as nat); }
                assert(merged_response(req, rs) == Err::<MessageView, DnsError>(e));
                return Err(e);
            },
        };
        let ghost before = answers@.map_values(|a: Answer| a@);
        answers.push(a);
        assert(answers@.map_values(|a: Answer| a@) =~= before.push(a@));
        i = i + 1;
    }
    assert(rs.take(i as int) =~= rs);
    let mut questions: Vec<Question> = Vec::new();
    let mut j: usize = 0;
    while j < request.questions.len()
        invariant
            req == request@,
            j <= req.questions.len(),
            questions@.map_values(|q: Question| q@) == req.questions.take(j as int),
        decreases req.questions.len() - j,
    {
        let ghost before = questions@.map_values(|q: Question| q@);
        let q = request.questions[j].duplicate();
        questions.push(q);
        assert(questions@.map_values(|q: Question| q@) =~= before.push(q@));
        assert(req.questions.take(j + 1) =~= req.questions.take(j as int).push(req.questions[j as int]));
        j = j + 1;
        assert(questions@.map_values(|q: Question| q@) =~= req.questions.take(j as int));
    }
    assert(req.questions.take(j as int) =~= req.questions);
    let header = make_response_header(&request.header, questions.len(), answers.len());
    let response = Message { header, questions, answers };
    response.to_bytes()
}

/// Once taking the first answers of the first `k` replies fails, taking
/// them of all replies fails the same way.
pub proof fn lemma_first_answers_err_persists(replies: Seq<Seq<u8>>, k: nat)
    requires
        k <= replies.len(),
        first_answers(replies.take(k as int)) is Err,
    ensures
        first_answers(replies) == first_answers(replies.take(k as int)),
    decreases replies.len() - k,
{
    if k < replies.len() {
        let k1 = (k + 1) as nat;
        assert(replies.take(k1 as int).drop_last() =~= replies.take(k as int));
        lemma_first_answers_err_persists(replies, k1);
    } else {
        assert(replies.take(k as int) =~= replies);
    }
}

} // verus!

use codecrafters_dns_server::message::{Answer, DnsError, Message, Question};
use codecrafters_dns_server::resolver::{first_answer, forward_queries, handle_request, merge_replies};

fn question(labels: &[u8], record_type: u16) -> Question {
    Question { name: labels.to_vec(), record_type, class: 1 }
}

fn two_question_request(opcode: u8) -> Message {
    let mut request = Message::new();
    request.header.id = 0x4242;
    request.header.qr = 0;
    request.header.opcode = opcode;
    request.header.rd = 1;
    request.questions.push(question(&[1, b'a', 3, b'c', b'o', b'm'], 1));
    request.questions.push(question(&[1, b'b', 3, b'o', b'r', b'g'], 28));
    request.header.qdcount = 2;
    request.header.ancount = 0;
    request
}

fn upstream_answer(q: &Question, last: u8) -> Vec<u8> {
    let mut reply = Message::new();
    reply.questions.push(q.clone());
    reply.answers.push(Answer {
        name: q.name.clone(),
        record_type: 1,
        class: 1,
        ttl: 300,
        data_length: 4,
        data: vec![10, 0, 0, last],
    });
    reply.to_bytes().unwrap()
}

#[test]
fn stub_echoes_questions_with_synthetic_answers() {
    let request = two_question_request(0).to_bytes().unwrap();
    let response = handle_request(&request).unwrap();
    let (msg, consumed) = Message::from_bytes(&response).unwrap();
    assert_eq!(consumed, response.len());
    assert_eq!(msg.header.id, 0x4242);
    assert_eq!(msg.header.qr, 1);
    assert_eq!(msg.header.rd, 1);
    assert_eq!(msg.header.rcode, 0);
    assert_eq!(msg.header.qdcount, 2);
    assert_eq!(msg.header.ancount, 2);
    assert_eq!(msg.questions, two_question_request(0).questions);
    for (q, a) in msg.questions.iter().zip(msg.answers.iter()) {
        assert_eq!(a.name, q.name);
        assert_eq!(a.record_type, 1);
        assert_eq!(a.class, q.class);
        assert_eq!(a.ttl, 60);
        assert_eq!(a.data, vec![8, 8, 8, 8]);
    }
}

#[test]
fn opcode_zero_gives_rcode_zero_and_others_rcode_four() {
    for opcode in 0..16u8 {
        let request = two_question_request(opcode).to_bytes().unwrap();
        let response = handle_request(&request).unwrap();
        let (msg, _) = Message::from_bytes(&response).unwrap();
        assert_eq!(msg.header.opcode, opcode);
        assert_eq!(msg.header.rcode, if opcode == 0 { 0 } else { 4 });
    }
}

#[test]
fn stub_reports_undecodable_requests() {
    assert_eq!(handle_request(&[0x12, 0x34]), Err(DnsError::TruncatedInput));
}

#[test]
fn forward_sends_one_query_per_question() {
    let request = two_question_request(0);
    let queries = forward_queries(&request).unwrap();
    assert_eq!(queries.len(), 2);
    for (i, query) in queries.iter().enumerate() {
        let (msg, _) = Message::from_bytes(query).unwrap();
        assert_eq!(msg.header.id, 0x4242);
        assert_eq!(msg.header.qdcount, 1);
        assert_eq!(msg.header.ancount, 0);
        assert_eq!(msg.questions, vec![request.questions[i].clone()]);
        assert!(msg.answers.is_empty());
    }
}

#[test]
fn forward_refuses_a_header_that_does_not_encode() {
    let mut request = two_question_request(0);
    request.header.z = 8;
    assert_eq!(forward_queries(&request), Err(DnsError::FieldOverflow));
}

#[test]
fn merged_answers_follow_question_order() {
    let request = two_question_request(0);
    let replies = vec![
        upstream_answer(&request.questions[0], 1),
        upstream_answer(&request.questions[1], 2),
    ];
    let merged = merge_replies(&request, &replies).unwrap();
    let (msg, _) = Message::from_bytes(&merged).unwrap();
    assert_eq!(msg.header.id, 0x4242);
    assert_eq!(msg.header.qr, 1);
    assert_eq!(msg.header.rcode, 0);
    assert_eq!(msg.header.qdcount, 2);
    assert_eq!(msg.header.ancount, 2);
    assert_eq!(msg.questions, request.questions);
    assert_eq!(msg.answers.len(), 2);
    assert_eq!(msg.answers[0].name, request.questions[0].name);
    assert_eq!(msg.answers[0].data, vec![10, 0, 0, 1]);
    assert_eq!(msg.answers[1].name, request.questions[1].name);
    assert_eq!(msg.answers[1].data, vec![10, 0, 0, 2]);
}

#[test]
fn merge_takes_only_the_first_answer_of_a_reply() {
    let request = two_question_request(0);
    let mut first = Message::new();
    first.answers.push(Answer::default());
    first.answers.push(Answer { ttl: 1, ..Answer::default() });
    let replies = vec![first.to_bytes().unwrap(), upstream_answer(&request.questions[1], 2)];
    let merged = merge_replies(&request, &replies).unwrap();
    let (msg, _) = Message::from_bytes(&merged).unwrap();
    assert_eq!(msg.answers.len(), 2);
    assert_eq!(msg.answers[0], Answer::default());
}

#[test]
fn merge_reports_missing_answers() {
    let request = two_question_request(0);
    let empty = Message::new().to_bytes().unwrap();
    let replies = vec![upstream_answer(&request.questions[0], 1), empty.clone()];
    assert_eq!(merge_replies(&request, &replies), Err(DnsError::MissingAnswer));
    assert_eq!(first_answer(&empty).map(|_| ()), Err(DnsError::MissingAnswer));
    let too_few = vec![upstream_answer(&request.questions[0], 1)];
    assert_eq!(merge_replies(&request, &too_few), Err(DnsError::MissingAnswer));
    let broken = vec![upstream_answer(&request.questions[0], 1), vec![0, 1, 2]];
    assert_eq!(merge_replies(&request, &broken), Err(DnsError::TruncatedInput));
}

#[test]
fn stub_answer_is_type_a_whatever_was_asked() {
    let q = question(&[1, b'b', 3, b'o', b'r', b'g'], 28);
    let a = Answer::from_question(&q);
    assert_eq!(a.record_type, 1);
    assert_eq!(a.class, 1);
    assert_eq!(a.name, q.name);
    assert_eq!(a.ttl, 60);
    assert_eq!(a.data_length, 4);
    assert_eq!(a.data, vec![8, 8, 8, 8]);
}

use codecrafters_dns_server::codec::read_dns_name;
use codecrafters_dns_server::defaults::encode_label;
use codecrafters_dns_server::message::{Answer, DnsError, Header, Message, Question};

fn example_query() -> Vec<u8> {
    vec![
        0x12, 0x34, 0x01, 0x00, 0x00, 0x01, 0x00, 0x00, 0x00, 0x00, 0x00, 0x00, 0x07, b'e', b'x',
        b'a', b'm', b'p', b'l', b'e', 0x03, b'c', b'o', b'm', 0x00, 0x00, 0x01, 0x00, 0x01,
    ]
}

fn example_name() -> Vec<u8> {
    vec![7, b'e', b'x', b'a', b'm', b'p', b'l', b'e', 3, b'c', b'o', b'm']
}

#[test]
fn header_flags_pack_most_significant_first() {
    let mut header = Header::default();
    header.id = 0xABCD;
    header.qr = 1;
    header.opcode = 2;
    header.aa = 1;
    header.tc = 0;
    header.rd = 1;
    header.ra = 1;
    header.z = 0;
    header.rcode = 3;
    header.qdcount = 0x0102;
    header.ancount = 0x0304;
    header.nscount = 5;
    header.arcount = 6;
    let bytes = header.to_bytes().unwrap();
    assert_eq!(bytes, vec![0xAB, 0xCD, 0x95, 0x83, 1, 2, 3, 4, 0, 5, 0, 6]);
    let (back, consumed) = Header::from_bytes(&bytes).unwrap();
    assert_eq!(consumed, 12);
    assert_eq!(back, header);
}

#[test]
fn header_field_too_wide_is_refused() {
    let mut header = Header::default();
    header.opcode = 16;
    assert_eq!(header.to_bytes(), Err(DnsError::FieldOverflow));
    let mut message = Message::new();
    message.header.rcode = 16;
    assert_eq!(message.to_bytes(), Err(DnsError::FieldOverflow));
}

#[test]
fn short_header_is_truncated() {
    for len in 0..12 {
        let buf = vec![0u8; len];
        assert_eq!(Header::from_bytes(&buf), Err(DnsError::TruncatedInput));
        assert_eq!(Message::from_bytes(&buf).map(|_| ()), Err(DnsError::TruncatedInput));
    }
}

#[test]
fn pointer_to_earlier_name_gives_the_same_labels() {
    let mut buf = example_query();
    let second = buf.len();
    buf.extend_from_slice(&[0xC0, 12]);
    let (direct, _) = read_dns_name(&buf, 12).unwrap();
    let (via_pointer, end) = read_dns_name(&buf, second).unwrap();
    assert_eq!(direct, example_name());
    assert_eq!(via_pointer, direct);
    assert_eq!(end, second + 2);
}

#[test]
fn labels_then_pointer_are_joined() {
    let mut buf = example_query();
    let start = buf.len();
    buf.extend_from_slice(&[3, b'w', b'w', b'w', 0xC0, 12]);
    let (name, end) = read_dns_name(&buf, start).unwrap();
    let mut expected = vec![3, b'w', b'w', b'w'];
    expected.extend_from_slice(&example_name());
    assert_eq!(name, expected);
    assert_eq!(end, start + 6);
}

#[test]
fn pointer_loops_are_refused() {
    // a pointer to itself
    let buf = vec![0xC0, 0x00];
    assert_eq!(read_dns_name(&buf, 0), Err(DnsError::CompressionLoop));
    // a forward pointer
    let buf = vec![0xC0, 0x02, 0x00];
    assert_eq!(read_dns_name(&buf, 0), Err(DnsError::CompressionLoop));
    // two names pointing at each other
    let buf = vec![1, b'a', 0xC0, 0x04, 1, b'b', 0xC0, 0x00];
    assert_eq!(read_dns_name(&buf, 4), Err(DnsError::CompressionLoop));
}

#[test]
fn truncated_names_and_records_are_refused() {
    assert_eq!(read_dns_name(&[], 0), Err(DnsError::TruncatedInput));
    assert_eq!(read_dns_name(&[3, b'a', b'b'], 0), Err(DnsError::TruncatedInput));
    assert_eq!(read_dns_name(&[1, b'a'], 0), Err(DnsError::TruncatedInput));
    assert_eq!(read_dns_name(&[0xC0], 0), Err(DnsError::TruncatedInput));
    let mut bytes = Answer::default().to_bytes().unwrap();
    bytes.pop();
    assert_eq!(Answer::from_bytes(&bytes).map(|_| ()), Err(DnsError::TruncatedInput));
    let mut query = example_query();
    query.pop();
    assert_eq!(Message::from_bytes(&query).map(|_| ()), Err(DnsError::TruncatedInput));
}

#[test]
fn counts_come_from_the_sections() {
    let mut message = Message::new();
    message.header.qdcount = 7;
    message.header.ancount = 9;
    message.questions.push(Question::default());
    let bytes = message.to_bytes().unwrap();
    assert_eq!(&bytes[4..8], &[0, 1, 0, 0]);
    let (back, _) = Message::from_bytes(&bytes).unwrap();
    assert_eq!(back.header.qdcount, 1);
    assert_eq!(back.header.ancount, 0);
    assert_eq!(back.questions, message.questions);
}

#[test]
fn record_length_comes_from_the_data() {
    let mut answer = Answer::default();
    answer.ttl = 0x01020304;
    answer.data_length = 99;
    answer.data = vec![1, 2, 3];
    let bytes = answer.to_bytes().unwrap();
    let n = bytes.len();
    assert_eq!(&bytes[n - 9..], &[1, 2, 3, 4, 0, 3, 1, 2, 3]);
    let (back, consumed) = Answer::from_bytes(&bytes).unwrap();
    assert_eq!(consumed, n);
    assert_eq!(back.data_length, 3);
    assert_eq!(back.data, vec![1, 2, 3]);
    assert_eq!(back.ttl, 0x01020304);
}

#[test]
fn oversized_record_data_is_refused() {
    let mut answer = Answer::default();
    answer.data = vec![0; 0x10000];
    assert_eq!(answer.to_bytes(), Err(DnsError::FieldOverflow));
}

#[test]
fn labels_are_length_prefixed() {
    assert_eq!(encode_label(&["example", "com"]), example_name());
    assert_eq!(encode_label(&[]), Vec::<u8>::new());
    let q = Question::default();
    assert_eq!(
        q.name,
        vec![12, b'c', b'o', b'd', b'e', b'c', b'r', b'a', b'f', b't', b'e', b'r', b's', 2, b'i', b'o']
    );
}

#[test]
fn trailing_bytes_are_left_alone() {
    let mut buf = example_query();
    buf.extend_from_slice(&[0xAA, 0xBB]);
    let (msg, consumed) = Message::from_bytes(&buf).unwrap();
    assert_eq!(consumed, 29);
    assert_eq!(msg.questions[0].name, example_name());
}

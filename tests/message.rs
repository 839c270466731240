use dns_codec::error::DnsError;
use dns_codec::message::{Answer, Query, Question, Response};
use dns_codec::name::Name;
use dns_codec::record::Record;
use dns_codec::server::{process_query, ServerBuilder, DEFAULT_PORT};
use dns_codec::types::{OpCode, QClass, QType, RRClass, RRType, ResponseCode};

const SAMPLE_BIN_QUERIES: &[&[u8]] = &[
    b"\xfd\xf0\x01\x00\x00\x01\x00\x00\x00\x00\x00\x00\x0ccodecrafters\x02io\x00\x00\x01\x00\x01",
];

const SAMPLE_BIN_RESPONSES: &[&[u8]] = &[
    b"\xfd\xf0\x81\x00\x00\x01\x00\x00\x00\x00\x00\x00\x0ccodecrafters\x02io\x00\x00\x01\x00\x01",
    b"\xfd\xf0\x81\x00\x00\x01\x00\x01\x00\x00\x00\x00\x0ccodecrafters\x02io\x00\x00\x01\x00\x01\xc0\x0c\x00\x01\x00\x01\x00\x00\x00\x3c\x00\x04\x08\x08\x08\x08",
];

const SAMPLE_BIN_QUESTION: &[u8] = b"\x0ccodecrafters\x02io\x00\x00\x01\x00\x01";

fn name(labels: &[&str]) -> Name {
    Name::from(labels.iter().map(|&s| String::from(s)).collect::<Vec<String>>())
}

fn sample_question() -> Question {
    Question::new(name(&["codecrafters", "io"]), QType::RRType(RRType::A), QClass::RRClass(RRClass::IN))
}

fn sample_answer() -> Answer {
    Answer::new(
        &name(&["codecrafters", "io"]),
        &Record::from_ip_v4("8.8.8.8").expect("Not a valid IPv4"),
        60,
    )
}

fn sample_responses() -> Vec<Response> {
    vec![
        Response::builder()
            .id(0xfdf0)
            .opcode(OpCode::Query)
            .recursion_desired(true)
            .questions(vec![sample_question()])
            .response_code(ResponseCode::NoError)
            .build(),
        Response::builder()
            .id(0xfdf0)
            .opcode(OpCode::Query)
            .recursion_desired(true)
            .questions(vec![sample_question()])
            .answers(vec![sample_answer()])
            .response_code(ResponseCode::NoError)
            .build(),
    ]
}

#[test]
fn encode_decode_question() -> Result<(), DnsError> {
    let question = Question::try_from(SAMPLE_BIN_QUESTION)?;
    assert_eq!(sample_question(), question);
    assert_eq!(SAMPLE_BIN_QUESTION, question.to_vec());
    Ok(())
}

#[test]
fn build_query() -> Result<(), DnsError> {
    for &bin in SAMPLE_BIN_QUERIES {
        let query = Query::try_from(bin)?;
        assert_eq!(query.response_code(), ResponseCode::NoError);
        assert_eq!(query.id(), 0xfdf0);
        assert_eq!(query.opcode(), OpCode::Query);
        assert!(!query.truncation());
        assert!(query.recursion_desired());
        assert_eq!(query.questions(), vec![sample_question()]);
    }
    Ok(())
}

#[test]
fn build_response() {
    for (&target, response) in SAMPLE_BIN_RESPONSES.iter().zip(sample_responses()) {
        let bin: Vec<u8> = response.to_bytes();
        assert_eq!(target, bin);
    }
}

#[test]
fn compressed_query() -> Result<(), DnsError> {
    let bytes = b"\xce5\x01\x00\x00\x02\x00\x00\x00\x00\x00\x00\x03abc\x11longassdomainname\x03com\x00\x00\x01\x00\x01\x03def\xc0\x10\x00\x01\x00\x01".to_vec();
    let _ = Query::try_from(&bytes[..])?;
    Ok(())
}

#[test]
fn compressed_query_expands_second_name() {
    let bytes = b"\xce5\x01\x00\x00\x02\x00\x00\x00\x00\x00\x00\x03abc\x11longassdomainname\x03com\x00\x00\x01\x00\x01\x03def\xc0\x10\x00\x01\x00\x01".to_vec();
    let query = Query::try_from(&bytes[..]).unwrap();
    assert_eq!(query.response_code(), ResponseCode::NoError);
    let qs = query.questions();
    assert_eq!(qs.len(), 2);
    assert_eq!(qs[0].name(), &name(&["abc", "longassdomainname", "com"]));
    assert_eq!(qs[1].name(), &name(&["def", "longassdomainname", "com"]));
}

#[test]
fn question_len_and_errors() {
    assert_eq!(sample_question().len(), SAMPLE_BIN_QUESTION.len());
    assert_eq!(Question::try_from(&b"\x02io\x00\x00\x01\x00"[..]), Err(DnsError::TruncatedQuestion));
    assert_eq!(Question::try_from(&b"\x02io\x00\x00\x11\x00\x01"[..]), Err(DnsError::InvalidType(17)));
    assert_eq!(Question::try_from(&b"\x02io\x00\x00\x01\x00\x05"[..]), Err(DnsError::InvalidClass(5)));
    assert_eq!(Question::try_from(&b"\x41io\x00\x00\x01\x00\x01"[..]), Err(DnsError::CorruptName));
    let any = Question::try_from(&b"\x02io\x00\x00\xff\x00\xff"[..]).unwrap();
    assert_eq!(any.qtype(), QType::ANY);
    assert_eq!(any.qclass(), QClass::ANY);
}

#[test]
fn query_hard_failures() {
    assert_eq!(Query::try_from(&b"\xfd"[..]), Err(DnsError::MissingId));
    assert_eq!(Query::try_from(&b""[..]), Err(DnsError::MissingId));
    assert_eq!(Query::try_from(&b"\xfd\xf0\x81"[..]), Err(DnsError::NotAQuery));
}

#[test]
fn query_soft_failures() {
    let q = Query::try_from(&b"\xfd\xf0\x01\x10\x00\x01"[..]).unwrap();
    assert_eq!(q.response_code(), ResponseCode::FormatError);
    assert_eq!(q.id(), 0xfdf0);
    assert!(q.recursion_desired());
    assert!(q.questions().is_empty());

    let short = Query::try_from(&b"\x12\x34\x0b"[..]).unwrap();
    assert_eq!(short.response_code(), ResponseCode::FormatError);
    assert_eq!(short.opcode(), OpCode::IQuery);
    assert!(short.truncation());

    let too_many = Query::try_from(&SAMPLE_BIN_QUERIES[0].iter().enumerate().map(|(i, &b)| if i == 5 { 2 } else { b }).collect::<Vec<u8>>()[..]).unwrap();
    assert_eq!(too_many.response_code(), ResponseCode::FormatError);
    assert_eq!(too_many.questions(), vec![sample_question()]);
}

#[test]
fn query_other_opcode_not_implemented() {
    let mut bytes = SAMPLE_BIN_QUERIES[0].to_vec();
    bytes[2] = 0x11;
    let q = Query::try_from(&bytes[..]).unwrap();
    assert_eq!(q.opcode(), OpCode::Status);
    assert_eq!(q.response_code(), ResponseCode::NotImplemented);
    bytes[2] = 0x7f;
    let q = Query::try_from(&bytes[..]).unwrap();
    assert_eq!(q.opcode(), OpCode::Reserved(15));
}

#[test]
fn self_pointer_stops_decoding() {
    // the only question's name points at its own offset
    let bytes = b"\x00\x01\x00\x00\x00\x01\x00\x00\x00\x00\x00\x00\xc0\x0c\x00\x01\x00\x01";
    let q = Query::try_from(&bytes[..]).unwrap();
    assert_eq!(q.response_code(), ResponseCode::FormatError);
    assert!(q.questions().is_empty());
}

#[test]
fn forward_pointer_stops_decoding() {
    let bytes = b"\x00\x01\x00\x00\x00\x02\x00\x00\x00\x00\x00\x00\x01a\xc0\x14\x00\x01\x00\x01\x01b\x00\x00\x01\x00\x01";
    let q = Query::try_from(&bytes[..]).unwrap();
    assert_eq!(q.response_code(), ResponseCode::FormatError);
    assert!(q.questions().is_empty());
}

#[test]
fn answer_encodes_ttl_and_data() {
    let a = sample_answer();
    assert_eq!(
        a.to_vec(),
        b"\x0ccodecrafters\x02io\x00\x00\x01\x00\x01\x00\x00\x00\x3c\x00\x04\x08\x08\x08\x08".to_vec()
    );
    assert_eq!(a.ttl(), 60);
    assert_eq!(a.record().data(), &vec![8, 8, 8, 8]);
}

#[test]
fn answer_compress() {
    let mut refs = dns_codec::name::References::new();
    refs.insert(vec![String::from("io")], 25);
    let c = sample_answer().compress(&refs).unwrap();
    assert_eq!(c.name(), &Name::new(vec![String::from("codecrafters")], Some(25)));
}

#[test]
fn response_header_flags_and_counts() {
    let r = Response::builder()
        .id(0x1234)
        .opcode(OpCode::Status)
        .set_truncation()
        .set_authoritative_answer()
        .set_recursion_available()
        .response_code(ResponseCode::Refused)
        .build();
    assert_eq!(r.to_bytes(), vec![0x12, 0x34, 0x80 | 0x10 | 0x04 | 0x02, 0x85, 0, 0, 0, 0, 0, 0, 0, 0]);
}

#[test]
fn builder_defaults() {
    let r = Response::builder().build();
    assert_eq!(r.to_bytes(), vec![0, 0, 0x80, 0, 0, 0, 0, 0, 0, 0, 0, 0]);
}

#[test]
fn repeated_suffixes_are_not_spelled_twice() {
    let qs = vec![
        Question::new(name(&["a", "example", "com"]), QType::RRType(RRType::A), QClass::RRClass(RRClass::IN)),
        Question::new(name(&["b", "example", "com"]), QType::RRType(RRType::A), QClass::RRClass(RRClass::IN)),
        Question::new(name(&["a", "example", "com"]), QType::RRType(RRType::A), QClass::RRClass(RRClass::IN)),
    ];
    let r = Response::builder().id(7).questions(qs.clone()).build();
    let bytes = r.to_bytes();
    // first name spelled out, second "b" + pointer, third a bare pointer
    assert_eq!(bytes.len(), 12 + (15 + 4) + (4 + 4) + (2 + 4));
    let mut cleared = bytes.clone();
    cleared[2] &= 0x7f;
    let q = Query::try_from(&cleared[..]).unwrap();
    assert_eq!(q.questions(), qs);
    assert_eq!(q.id(), 7);
    let again = Response::builder().id(q.id()).opcode(q.opcode()).questions(q.questions()).build();
    assert_eq!(again.to_bytes(), bytes);
}

#[test]
fn process_query_answers_every_question() {
    let query = Query::try_from(SAMPLE_BIN_QUERIES[0]).unwrap();
    let record = Record::from_ip_v4("8.8.8.8").unwrap();
    let response = process_query(&query, &record, 60);
    assert_eq!(response.id(), 0xfdf0);
    assert_eq!(response.answers().len(), 1);
    assert_eq!(response.to_bytes(), SAMPLE_BIN_RESPONSES[1].to_vec());
}

#[test]
fn server_builder_settings() {
    let b = ServerBuilder::default();
    assert_eq!(b.bind_address(), "127.0.0.1");
    assert_eq!(b.bind_port(), DEFAULT_PORT);
    let b = b.address("0.0.0.0").port(53);
    assert_eq!(b.bind_address(), "0.0.0.0");
    assert_eq!(b.bind_port(), 53);
}

#[test]
fn code_conversions() {
    assert_eq!(u16::from(QType::AXFR), 252);
    assert_eq!(QType::try_from(16u16), Ok(QType::RRType(RRType::TXT)));
    assert_eq!(QType::try_from(0u16), Err(DnsError::InvalidType(0)));
    assert_eq!(RRType::try_from(17u16), Err(DnsError::InvalidType(17)));
    assert_eq!(QClass::try_from(4u16), Ok(QClass::RRClass(RRClass::HS)));
    assert_eq!(RRClass::try_from(255u16), Err(DnsError::InvalidClass(255)));
    assert_eq!(OpCode::from(9u8), OpCode::Reserved(9));
    assert_eq!(u8::from(OpCode::Reserved(9)), 9);
    assert_eq!(u8::from(ResponseCode::Reserved), 6);
    assert_eq!(ResponseCode::default(), ResponseCode::FormatError);
    assert_eq!(OpCode::default(), OpCode::Query);
}

#[test]
fn handle_datagram_replies_or_fails() {
    let record = Record::from_ip_v4("8.8.8.8").unwrap();
    let reply = dns_codec::server::handle_datagram(SAMPLE_BIN_QUERIES[0], &record, 60).unwrap();
    assert_eq!(reply, SAMPLE_BIN_RESPONSES[1].to_vec());
    assert_eq!(dns_codec::server::handle_datagram(b"\x01", &record, 60), Err(DnsError::MissingId));
    let short = dns_codec::server::handle_datagram(b"\x01\x02\x00\x00", &record, 60).unwrap();
    assert_eq!(short, vec![1, 2, 0x80, 1, 0, 0, 0, 0, 0, 0, 0, 0]);
}

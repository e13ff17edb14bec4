use dns_codec::err::DnsError;
use dns_codec::message::{
    build_query, decode_header, decode_message, decode_question_simple, encode_header,
    encode_question, Header, Question, CLASS_IN,
};
use dns_codec::name::{decode_name_full, decode_name_simple, encode_name, encode_name_bytes};

fn sample_header() -> Header {
    Header {
        id: 0xABCD,
        flags: 0x8180,
        num_questions: 1,
        num_answers: 2,
        num_authorities: 3,
        num_additionals: 4,
    }
}

#[test]
fn encode_name_google() {
    let bytes = encode_name("google.com").unwrap();
    let expected: Vec<u8> = vec![
        6, b'g', b'o', b'o', b'g', b'l', b'e', 3, b'c', b'o', b'm', 0,
    ];
    assert_eq!(bytes, expected);
}

#[test]
fn encode_name_single_label() {
    let bytes = encode_name("localhost").unwrap();
    let mut expected: Vec<u8> = vec![9];
    expected.extend_from_slice(b"localhost");
    expected.push(0);
    assert_eq!(bytes, expected);
}

#[test]
fn encode_name_rejects_empty_segment() {
    assert_eq!(encode_name(""), Err(DnsError::InvalidLabel));
    assert_eq!(encode_name("a..b"), Err(DnsError::InvalidLabel));
    assert_eq!(encode_name(".a"), Err(DnsError::InvalidLabel));
    assert_eq!(encode_name("a."), Err(DnsError::InvalidLabel));
}

#[test]
fn encode_name_rejects_long_label() {
    let long = "a".repeat(64);
    let domain = format!("{}.com", long);
    assert_eq!(encode_name(&domain), Err(DnsError::InvalidLabel));
    let ok = "a".repeat(63);
    let domain_ok = format!("{}.com", ok);
    assert!(encode_name(&domain_ok).is_ok());
}

#[test]
fn encode_name_rejects_long_name() {
    // Four 62-byte labels plus one more label pass 255 encoded bytes.
    let label = "b".repeat(62);
    let domain = format!(
        "{}.{}.{}.{}.{}",
        label, label, label, label, "c".repeat(20)
    );
    assert_eq!(encode_name(&domain), Err(DnsError::InvalidLabel));
}

#[test]
fn name_round_trip() {
    for domain in ["www.example.com", "google.com", "localhost", "a.b.c.d.e"] {
        let wire = encode_name(domain).unwrap();
        let decoded = decode_name_full(&wire).unwrap();
        assert_eq!(decoded, domain.as_bytes());
        let decoded_simple = decode_name_simple(&wire).unwrap();
        assert_eq!(decoded_simple, domain.as_bytes());
    }
}

#[test]
fn decode_header_fixed() {
    let bytes: Vec<u8> = vec![
        0x13, 0x37, 0x01, 0x00, 0x00, 0x01, 0x00, 0x00, 0x00, 0x00, 0x00, 0x00,
    ];
    let h = decode_header(&bytes).unwrap();
    assert_eq!(h.id, 0x1337);
    assert_eq!(h.flags, 0x0100);
    assert_eq!(h.num_questions, 1);
    assert_eq!(h.num_answers, 0);
    assert_eq!(h.num_authorities, 0);
    assert_eq!(h.num_additionals, 0);
}

#[test]
fn decode_header_underrun() {
    let bytes: Vec<u8> = vec![0x13, 0x37, 0x01, 0x00, 0x00];
    assert_eq!(decode_header(&bytes), Err(DnsError::BufferUnderrun));
}

#[test]
fn header_round_trip() {
    let h = sample_header();
    let bytes = encode_header(&h);
    assert_eq!(bytes.len(), 12);
    assert_eq!(decode_header(&bytes).unwrap(), h);
}

#[test]
fn encode_header_layout() {
    let h = sample_header();
    let bytes = encode_header(&h);
    let expected: Vec<u8> = vec![
        0xAB, 0xCD, 0x81, 0x80, 0x00, 0x01, 0x00, 0x02, 0x00, 0x03, 0x00, 0x04,
    ];
    assert_eq!(bytes, expected);
}

#[test]
fn encode_question_layout() {
    let q = Question {
        name: encode_name("example.com").unwrap(),
        qtype: 0x00FF,
        qclass: CLASS_IN,
    };
    let bytes = encode_question(&q);
    let mut expected = encode_name("example.com").unwrap();
    expected.extend_from_slice(&[0x00, 0xFF, 0x00, 0x01]);
    assert_eq!(bytes, expected);
}

#[test]
fn decode_question_simple_roundtrip() {
    let mut wire = encode_name("www.abc").unwrap();
    wire.extend_from_slice(&[0x00, 0x01, 0x00, 0x01]);
    let q = decode_question_simple(&wire).unwrap();
    assert_eq!(q.name, b"www.abc");
    assert_eq!(q.qtype, 1);
    assert_eq!(q.qclass, 1);
}

#[test]
fn decode_question_simple_underrun() {
    let mut wire = encode_name("www.abc").unwrap();
    wire.extend_from_slice(&[0x00, 0x01]);
    assert_eq!(decode_question_simple(&wire), Err(DnsError::BufferUnderrun));
}

#[test]
fn decode_name_simple_misreads_pointer_as_length() {
    // The simple variant takes 0xC0 as a 192-byte label length and runs out.
    let wire: Vec<u8> = vec![0xC0, 0x0C];
    assert_eq!(decode_name_simple(&wire), Err(DnsError::BufferUnderrun));
}

#[test]
fn build_query_layout() {
    let bytes = build_query("example.com", 0x8298, 1).unwrap();
    let mut expected: Vec<u8> = vec![
        0x82, 0x98, 0x00, 0x00, 0x00, 0x01, 0x00, 0x00, 0x00, 0x00, 0x00, 0x00,
    ];
    expected.extend(encode_name("example.com").unwrap());
    expected.extend_from_slice(&[0x00, 0x01, 0x00, 0x01]);
    assert_eq!(bytes, expected);
}

#[test]
fn build_query_rejects_bad_domain() {
    assert_eq!(build_query("bad..domain", 7, 1), Err(DnsError::InvalidLabel));
}

#[test]
fn encode_name_bytes_matches_str_variant() {
    let a = encode_name_bytes(b"mail.example.org").unwrap();
    let b = encode_name("mail.example.org").unwrap();
    assert_eq!(a, b);
}

#[test]
fn decode_message_query() {
    let query = build_query("example.com", 0x1234, 1).unwrap();
    let m = decode_message(&query).unwrap();
    assert_eq!(m.header.id, 0x1234);
    assert_eq!(m.header.num_questions, 1);
    assert_eq!(m.questions.len(), 1);
    assert_eq!(m.questions[0].name, b"example.com");
    assert_eq!(m.questions[0].qtype, 1);
    assert_eq!(m.questions[0].qclass, 1);
    assert!(m.answers.is_empty());
    assert!(m.authorities.is_empty());
    assert!(m.additionals.is_empty());
}

use dns_codec::err::DnsError;
use dns_codec::message::{decode_message, encode_header, Header};
use dns_codec::name::{decode_name_full, encode_name};

fn header_with(
    id: u16,
    num_questions: u16,
    num_answers: u16,
    num_authorities: u16,
    num_additionals: u16,
) -> Header {
    Header {
        id,
        flags: 0x8180,
        num_questions,
        num_answers,
        num_authorities,
        num_additionals,
    }
}

/// A response with one question and one answer whose name is a pointer back
/// to the question's name at offset 12.
fn response_with_pointer() -> Vec<u8> {
    let mut bytes = encode_header(&header_with(0x1337, 1, 1, 0, 0));
    bytes.extend(encode_name("example.com").unwrap());
    bytes.extend_from_slice(&[0x00, 0x01, 0x00, 0x01]);
    // Answer: pointer to offset 12, type A, class IN, ttl 60, 4 bytes of data.
    bytes.extend_from_slice(&[0xC0, 0x0C]);
    bytes.extend_from_slice(&[0x00, 0x01, 0x00, 0x01]);
    bytes.extend_from_slice(&[0x00, 0x00, 0x00, 0x3C]);
    bytes.extend_from_slice(&[0x00, 0x04, 93, 184, 216, 34]);
    bytes
}

#[test]
fn compressed_name_matches_target() {
    let bytes = response_with_pointer();
    let m = decode_message(&bytes).unwrap();
    assert_eq!(m.questions[0].name, b"example.com");
    assert_eq!(m.answers[0].name, m.questions[0].name);
}

#[test]
fn decode_message_full_response() {
    let mut bytes = encode_header(&header_with(0xBEEF, 1, 1, 1, 1));
    bytes.extend(encode_name("example.com").unwrap());
    bytes.extend_from_slice(&[0x00, 0x01, 0x00, 0x01]);
    for _ in 0..3 {
        // Three records, each a pointer name plus fixed fields and 2 bytes.
        bytes.extend_from_slice(&[0xC0, 0x0C]);
        bytes.extend_from_slice(&[0x00, 0x02, 0x00, 0x01]);
        bytes.extend_from_slice(&[0x00, 0x00, 0x0E, 0x10]);
        bytes.extend_from_slice(&[0x00, 0x02, 0xAB, 0xCD]);
    }
    let m = decode_message(&bytes).unwrap();
    assert_eq!(m.header.num_questions as usize, m.questions.len());
    assert_eq!(m.header.num_answers as usize, m.answers.len());
    assert_eq!(m.header.num_authorities as usize, m.authorities.len());
    assert_eq!(m.header.num_additionals as usize, m.additionals.len());
    assert_eq!(m.answers[0].rtype, 2);
    assert_eq!(m.answers[0].ttl, 3600);
    assert_eq!(m.answers[0].data, vec![0xAB, 0xCD]);
    assert_eq!(m.additionals[0].name, b"example.com");
}

#[test]
fn count_mismatch_fails_with_underrun() {
    // Header declares one question, but nothing follows.
    let bytes = encode_header(&header_with(1, 1, 0, 0, 0));
    assert_eq!(decode_message(&bytes), Err(DnsError::BufferUnderrun));
}

#[test]
fn count_mismatch_truncated_record() {
    // Header declares an answer, but the record is cut short.
    let mut bytes = encode_header(&header_with(1, 1, 1, 0, 0));
    bytes.extend(encode_name("example.com").unwrap());
    bytes.extend_from_slice(&[0x00, 0x01, 0x00, 0x01]);
    bytes.extend_from_slice(&[0xC0, 0x0C, 0x00, 0x01]);
    assert_eq!(decode_message(&bytes), Err(DnsError::BufferUnderrun));
}

#[test]
fn record_payload_shorter_than_declared() {
    let mut bytes = encode_header(&header_with(1, 0, 1, 0, 0));
    bytes.extend(encode_name("a.b").unwrap());
    bytes.extend_from_slice(&[0x00, 0x01, 0x00, 0x01]);
    bytes.extend_from_slice(&[0x00, 0x00, 0x00, 0x3C]);
    bytes.extend_from_slice(&[0x00, 0x04, 1, 2]);
    assert_eq!(decode_message(&bytes), Err(DnsError::BufferUnderrun));
}

#[test]
fn self_pointer_rejected() {
    // A name that is a pointer to its own offset must fail, not loop.
    let mut bytes = encode_header(&header_with(1, 1, 0, 0, 0));
    bytes.extend_from_slice(&[0xC0, 0x0C]);
    bytes.extend_from_slice(&[0x00, 0x01, 0x00, 0x01]);
    assert_eq!(decode_message(&bytes), Err(DnsError::InvalidPointer));
}

#[test]
fn forward_pointer_rejected() {
    // A pointer past its own position must fail as well.
    let mut bytes = encode_header(&header_with(1, 1, 0, 0, 0));
    bytes.extend_from_slice(&[0xC0, 0x20]);
    bytes.extend_from_slice(&[0x00, 0x01, 0x00, 0x01]);
    assert_eq!(decode_message(&bytes), Err(DnsError::InvalidPointer));
}

#[test]
fn pointer_chain_cannot_revisit() {
    // The question name points back into the header; the bytes there are not
    // a valid name start for a cycle, and any pointer chain must move
    // strictly backwards, so the decode terminates with an error.
    let mut bytes = Vec::new();
    bytes.extend_from_slice(&[0x13, 0x37, 0x01, 0x00, 0x00, 0x01, 0x00, 0x00]);
    bytes.extend_from_slice(&[0x00, 0x00, 0xC0, 0x0C]);
    // Question name at offset 12 points to offset 10, which holds a pointer
    // back to offset 12: following it would revisit the first pointer.
    bytes.extend_from_slice(&[0xC0, 0x0A]);
    bytes.extend_from_slice(&[0x00, 0x01, 0x00, 0x01]);
    assert_eq!(decode_message(&bytes), Err(DnsError::InvalidPointer));
}

#[test]
fn truncated_pointer_is_underrun() {
    let wire: Vec<u8> = vec![0xC0];
    assert_eq!(decode_name_full(&wire), Err(DnsError::BufferUnderrun));
}

#[test]
fn standalone_pointer_target_decodes_like_target() {
    // One buffer holding a name at offset 0 and a bare pointer to it at the
    // end; decoding from the pointer is exercised through a message.
    let mut bytes = encode_header(&header_with(7, 2, 0, 0, 0));
    bytes.extend(encode_name("abc.def").unwrap());
    bytes.extend_from_slice(&[0x00, 0x01, 0x00, 0x01]);
    bytes.extend_from_slice(&[0xC0, 0x0C]);
    bytes.extend_from_slice(&[0x00, 0x1C, 0x00, 0x01]);
    let m = decode_message(&bytes).unwrap();
    assert_eq!(m.questions[0].name, b"abc.def");
    assert_eq!(m.questions[1].name, b"abc.def");
    assert_eq!(m.questions[1].qtype, 0x1C);
}

//! Wire-format codec for DNS messages (RFC 1035): domain names, headers,
//! questions, resource records, and whole messages, including
//! compression-pointer-aware name decoding with explicit bounds and cycle
//! rejection.

pub mod buffer;
pub mod err;
pub mod message;
pub mod name;

pub use buffer::Buffer;
pub use err::DnsError;
pub use message::{
    build_query, decode_header, decode_message, decode_question_simple, encode_header,
    encode_question, Header, Message, Question, Record, CLASS_IN,
};
pub use name::{decode_name_full, decode_name_simple, encode_name, encode_name_bytes};

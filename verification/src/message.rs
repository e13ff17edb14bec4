use vstd::prelude::*;

use crate::buffer::{be16, be32, Buffer};
use crate::err::DnsError;
use crate::name::{encode_name, join_labels, lemma_name_at_end_bounds, lemma_name_at_pointer_free_err, name_at, name_at_simple, pointer_free, split_labels, valid_domain, wire_name};
use vstd::string::StringSliceAdditionalSpecFns;

verus! {

/// Query class "Internet".
pub const CLASS_IN: u16 = 1;

/// The fixed 12-byte message header: transaction id, opaque flags word, and
/// the four counts that drive the message assembler.
#[derive(Clone, Copy, Debug, PartialEq, Eq, Structural)]
pub struct Header {
    pub id: u16,
    pub flags: u16,
    pub num_questions: u16,
    pub num_answers: u16,
    pub num_authorities: u16,
    pub num_additionals: u16,
}

/// A question: a name in its decoded dotted form, a query type, and a query
/// class.
#[derive(Clone, Debug, PartialEq, Eq)]
pub struct Question {
    pub name: Vec<u8>,
    pub qtype: u16,
    pub qclass: u16,
}

/// The mathematical content of a `Question`.
#[verifier::ext_equal]
pub ghost struct QuestionV {
    pub name: Seq<u8>,
    pub qtype: u16,
    pub qclass: u16,
}

impl View for Question {
    type V = QuestionV;

    open spec fn view(&self) -> QuestionV {
        QuestionV { name: self.name@, qtype: self.qtype, qclass: self.qclass }
    }
}

/// A resource record: name, type, class, time-to-live, and the raw payload
/// bytes, which this codec does not interpret.
#[derive(Clone, Debug, PartialEq, Eq)]
pub struct Record {
    pub name: Vec<u8>,
    pub rtype: u16,
    pub rclass: u16,
    pub ttl: u32,
    pub data: Vec<u8>,
}

/// The mathematical content of a `Record`.
#[verifier::ext_equal]
pub ghost struct RecordV {
    pub name: Seq<u8>,
    pub rtype: u16,
    pub rclass: u16,
    pub ttl: u32,
    pub data: Seq<u8>,
}

impl View for Record {
    type V = RecordV;

    open spec fn view(&self) -> RecordV {
        RecordV {
            name: self.name@,
            rtype: self.rtype,
            rclass: self.rclass,
            ttl: self.ttl,
            data: self.data@,
        }
    }
}

/// The two big-endian bytes of a 16-bit value.
pub open spec fn be16_bytes(x: u16) -> Seq<u8> {
    seq![(x / 0x100) as u8, (x % 0x100) as u8]
}

/// The 12 bytes of a header on the wire: six 16-bit fields, big-endian, in
/// fixed order.
pub open spec fn header_bytes(h: Header) -> Seq<u8> {
    be16_bytes(h.id) + be16_bytes(h.flags) + be16_bytes(h.num_questions) + be16_bytes(
        h.num_answers,
    ) + be16_bytes(h.num_authorities) + be16_bytes(h.num_additionals)
}

/// Parse a header from `pos`: the header and the position just past it, or
/// BufferUnderrun when fewer than 12 bytes remain.
pub open spec fn spec_parse_header(data: Seq<u8>, pos: int) -> Result<(Header, int), DnsError> {
    if pos + 12 > data.len() {
        Err(DnsError::BufferUnderrun)
    } else {
        Ok(
            (
                Header {
                    id: be16(data, pos),
                    flags: be16(data, pos + 2),
                    num_questions: be16(data, pos + 4),
                    num_answers: be16(data, pos + 6),
                    num_authorities: be16(data, pos + 8),
                    num_additionals: be16(data, pos + 10),
                },
                pos + 12,
            ),
        )
    }
}

/// Parse a question from `pos`: a full-variant name, then type and class.
pub open spec fn spec_parse_question(data: Seq<u8>, pos: int) -> Result<(QuestionV, int), DnsError> {
    match name_at(data, pos, pos) {
        Ok(le) => if le.1 + 4 <= data.len() {
            Ok(
                (
                    QuestionV {
                        name: join_labels(le.0),
                        qtype: be16(data, le.1),
                        qclass: be16(data, le.1 + 2),
                    },
                    le.1 + 4,
                ),
            )
        } else {
            Err(DnsError::BufferUnderrun)
        },
        Err(e) => Err(e),
    }
}

/// Parse a question from `pos` with the simple (non-compression-aware) name
/// decoder.
pub open spec fn spec_parse_question_simple(data: Seq<u8>, pos: int) -> Result<
    (QuestionV, int),
    DnsError,
> {
    match name_at_simple(data, pos) {
        Ok(le) => if le.1 + 4 <= data.len() {
            Ok(
                (
                    QuestionV {
                        name: join_labels(le.0),
                        qtype: be16(data, le.1),
                        qclass: be16(data, le.1 + 2),
                    },
                    le.1 + 4,
                ),
            )
        } else {
            Err(DnsError::BufferUnderrun)
        },
        Err(e) => Err(e),
    }
}

/// Parse a record from `pos`: a full-variant name, type, class, ttl, payload
/// length, then that many payload bytes.
pub open spec fn spec_parse_record(data: Seq<u8>, pos: int) -> Result<(RecordV, int), DnsError> {
    match name_at(data, pos, pos) {
        Ok(le) => {
            let p = le.1;
            if p + 10 > data.len() {
                Err(DnsError::BufferUnderrun)
            } else {
                let dlen = be16(data, p + 8) as int;
                if p + 10 + dlen > data.len() {
                    Err(DnsError::BufferUnderrun)
                } else {
                    Ok(
                        (
                            RecordV {
                                name: join_labels(le.0),
                                rtype: be16(data, p),
                                rclass: be16(data, p + 2),
                                ttl: be32(data, p + 4),
                                data: data.subrange(p + 10, p + 10 + dlen),
                            },
                            p + 10 + dlen,
                        ),
                    )
                }
            }
        },
        Err(e) => Err(e),
    }
}

/// Append the two big-endian bytes of `x`.
fn push_u16(out: &mut Vec<u8>, x: u16)
    ensures
        final(out)@ == old(out)@ + be16_bytes(x),
{
    out.push((x / 0x100) as u8);
    out.push((x % 0x100) as u8);
    proof {
        assert(out@ =~= old(out)@ + be16_bytes(x));
    }
}

/// Append a copy of `src`.
fn append_bytes(out: &mut Vec<u8>, src: &Vec<u8>)
    ensures
        final(out)@ == old(out)@ + src@,
{
    let mut i: usize = 0;
    while i < src.len()
        invariant
            i <= src@.len(),
            out@ == old(out)@ + src@.subrange(0, i as int),
        decreases src@.len() - i,
    {
        let b = src[i];
        proof {
            assert(old(out)@ + src@.subrange(0, i + 1) =~= (old(out)@ + src@.subrange(0, i as int)).push(
                src@[i as int],
            ));
        }
        out.push(b);
        i = i + 1;
    }
    proof {
        assert(src@.subrange(0, src@.len() as int) =~= src@);
    }
}

/// Serialize a header: six 16-bit fields, big-endian, 12 bytes, no padding.
pub fn encode_header(h: &Header) -> (r: Vec<u8>)
    ensures
        r@ == header_bytes(*h),
{
    let mut out: Vec<u8> = Vec::new();
    push_u16(&mut out, h.id);
    push_u16(&mut out, h.flags);
    push_u16(&mut out, h.num_questions);
    push_u16(&mut out, h.num_answers);
    push_u16(&mut out, h.num_authorities);
    push_u16(&mut out, h.num_additionals);
    proof {
        assert(out@ =~= header_bytes(*h));
    }
    out
}

/// The wire bytes of a question whose name is already in wire form.
pub open spec fn question_wire(name: Seq<u8>, qtype: u16, qclass: u16) -> Seq<u8> {
    name + be16_bytes(qtype) + be16_bytes(qclass)
}

/// Serialize a question: its (pre-encoded) name bytes, then query type and
/// query class, big-endian.
pub fn encode_question(q: &Question) -> (r: Vec<u8>)
    ensures
        r@ == question_wire(q.name@, q.qtype, q.qclass),
{
    let mut out: Vec<u8> = Vec::new();
    append_bytes(&mut out, &q.name);
    push_u16(&mut out, q.qtype);
    push_u16(&mut out, q.qclass);
    proof {
        assert(out@ =~= question_wire(q.name@, q.qtype, q.qclass));
    }
    out
}

/// Decode a header at the cursor: six 16-bit reads. On failure the cursor has
/// not moved.
pub fn parse_header(buf: &mut Buffer) -> (r: Result<Header, DnsError>)
    ensures
        final(buf).bytes() == old(buf).bytes(),
        ({
            let s = spec_parse_header(old(buf).bytes(), old(buf).cursor());
            match r {
                Ok(h) => s is Ok && h == s->Ok_0.0 && final(buf).cursor() == s->Ok_0.1,
                Err(e) => s is Err && e == s->Err_0 && final(buf).cursor() == old(buf).cursor(),
            }
        }),
{
    let saved = buf.pos;
    let id = match buf.read_u16() {
        Ok(x) => x,
        Err(e) => {
            buf.pos = saved;
            return Err(e);
        },
    };
    let flags = match buf.read_u16() {
        Ok(x) => x,
        Err(e) => {
            buf.pos = saved;
            return Err(e);
        },
    };
    let num_questions = match buf.read_u16() {
        Ok(x) => x,
        Err(e) => {
            buf.pos = saved;
            return Err(e);
        },
    };
    let num_answers = match buf.read_u16() {
        Ok(x) => x,
        Err(e) => {
            buf.pos = saved;
            return Err(e);
        },
    };
    let num_authorities = match buf.read_u16() {
        Ok(x) => x,
        Err(e) => {
            buf.pos = saved;
            return Err(e);
        },
    };
    let num_additionals = match buf.read_u16() {
        Ok(x) => x,
        Err(e) => {
            buf.pos = saved;
            return Err(e);
        },
    };
    Ok(Header { id, flags, num_questions, num_answers, num_authorities, num_additionals })
}

/// Decode a header from the start of `input`.
pub fn decode_header(input: &[u8]) -> (r: Result<Header, DnsError>)
    ensures
        ({
            let s = spec_parse_header(input@, 0);
            match r {
                Ok(h) => s is Ok && h == s->Ok_0.0,
                Err(e) => s is Err && e == s->Err_0,
            }
        }),
{
    let mut buffer = Buffer::new(vstd::slice::slice_to_vec(input));
    parse_header(&mut buffer)
}

/// Decode a question at the cursor: full-variant name decode, then query type
/// and query class. On failure the cursor has not moved.
pub fn parse_question(buf: &mut Buffer) -> (r: Result<Question, DnsError>)
    ensures
        final(buf).bytes() == old(buf).bytes(),
        ({
            let s = spec_parse_question(old(buf).bytes(), old(buf).cursor());
            match r {
                Ok(q) => s is Ok && q@ == s->Ok_0.0 && final(buf).cursor() == s->Ok_0.1,
                Err(e) => s is Err && e == s->Err_0 && final(buf).cursor() == old(buf).cursor(),
            }
        }),
{
    let saved = buf.pos;
    let name = match buf.decode_name() {
        Ok(n) => n,
        Err(e) => {
            return Err(e);
        },
    };
    let qtype = match buf.read_u16() {
        Ok(x) => x,
        Err(e) => {
            buf.pos = saved;
            return Err(e);
        },
    };
    let qclass = match buf.read_u16() {
        Ok(x) => x,
        Err(e) => {
            buf.pos = saved;
            return Err(e);
        },
    };
    Ok(Question { name, qtype, qclass })
}

/// Decode a question at the cursor with the simple name decoder: for wire
/// data known to hold no compression pointers.
pub fn parse_question_simple(buf: &mut Buffer) -> (r: Result<Question, DnsError>)
    ensures
        final(buf).bytes() == old(buf).bytes(),
        ({
            let s = spec_parse_question_simple(old(buf).bytes(), old(buf).cursor());
            match r {
                Ok(q) => s is Ok && q@ == s->Ok_0.0 && final(buf).cursor() == s->Ok_0.1,
                Err(e) => s is Err && e == s->Err_0 && final(buf).cursor() == old(buf).cursor(),
            }
        }),
{
    let saved = buf.pos;
    let name = match buf.decode_name_simple() {
        Ok(n) => n,
        Err(e) => {
            return Err(e);
        },
    };
    let qtype = match buf.read_u16() {
        Ok(x) => x,
        Err(e) => {
            buf.pos = saved;
            return Err(e);
        },
    };
    let qclass = match buf.read_u16() {
        Ok(x) => x,
        Err(e) => {
            buf.pos = saved;
            return Err(e);
        },
    };
    Ok(Question { name, qtype, qclass })
}

/// Decode a question from the start of `input`, with the simple name decoder.
pub fn decode_question_simple(input: &[u8]) -> (r: Result<Question, DnsError>)
    ensures
        ({
            let s = spec_parse_question_simple(input@, 0);
            match r {
                Ok(q) => s is Ok && q@ == s->Ok_0.0,
                Err(e) => s is Err && e == s->Err_0,
            }
        }),
{
    let mut buffer = Buffer::new(vstd::slice::slice_to_vec(input));
    parse_question_simple(&mut buffer)
}

/// Decode a record at the cursor: full-variant name decode, type, class,
/// time-to-live, payload length, then the payload bytes. On failure the
/// cursor has not moved.
pub fn parse_record(buf: &mut Buffer) -> (r: Result<Record, DnsError>)
    ensures
        final(buf).bytes() == old(buf).bytes(),
        ({
            let s = spec_parse_record(old(buf).bytes(), old(buf).cursor());
            match r {
                Ok(rec) => s is Ok && rec@ == s->Ok_0.0 && final(buf).cursor() == s->Ok_0.1,
                Err(e) => s is Err && e == s->Err_0 && final(buf).cursor() == old(buf).cursor(),
            }
        }),
{
    let saved = buf.pos;
    let name = match buf.decode_name() {
        Ok(n) => n,
        Err(e) => {
            return Err(e);
        },
    };
    let rtype = match buf.read_u16() {
        Ok(x) => x,
        Err(e) => {
            buf.pos = saved;
            return Err(e);
        },
    };
    let rclass = match buf.read_u16() {
        Ok(x) => x,
        Err(e) => {
            buf.pos = saved;
            return Err(e);
        },
    };
    let ttl = match buf.read_u32() {
        Ok(x) => x,
        Err(e) => {
            buf.pos = saved;
            return Err(e);
        },
    };
    let dlen = match buf.read_u16() {
        Ok(x) => x,
        Err(e) => {
            buf.pos = saved;
            return Err(e);
        },
    };
    let data = match buf.take(dlen as usize) {
        Ok(d) => d,
        Err(e) => {
            buf.pos = saved;
            return Err(e);
        },
    };
    Ok(Record { name, rtype, rclass, ttl, data })
}

/// Parse `n` questions in sequence from `pos`.
pub open spec fn spec_parse_questions(data: Seq<u8>, pos: int, n: int) -> Result<
    (Seq<QuestionV>, int),
    DnsError,
>
    decreases n,
{
    if n <= 0 {
        Ok((Seq::empty(), pos))
    } else {
        match spec_parse_question(data, pos) {
            Ok(qe) => match spec_parse_questions(data, qe.1, n - 1) {
                Ok(rest) => Ok((seq![qe.0] + rest.0, rest.1)),
                Err(e) => Err(e),
            },
            Err(e) => Err(e),
        }
    }
}

/// Parse `n` records in sequence from `pos`.
pub open spec fn spec_parse_records(data: Seq<u8>, pos: int, n: int) -> Result<
    (Seq<RecordV>, int),
    DnsError,
>
    decreases n,
{
    if n <= 0 {
        Ok((Seq::empty(), pos))
    } else {
        match spec_parse_record(data, pos) {
            Ok(re) => match spec_parse_records(data, re.1, n - 1) {
                Ok(rest) => Ok((seq![re.0] + rest.0, rest.1)),
                Err(e) => Err(e),
            },
            Err(e) => Err(e),
        }
    }
}

/// Decode `n` questions in sequence at the cursor.
pub fn parse_questions(buf: &mut Buffer, n: u16) -> (r: Result<Vec<Question>, DnsError>)
    ensures
        final(buf).bytes() == old(buf).bytes(),
        ({
            let s = spec_parse_questions(old(buf).bytes(), old(buf).cursor(), n as int);
            match r {
                Ok(qs) => s is Ok && qs@.map_values(|q: Question| q@) == s->Ok_0.0
                    && final(buf).cursor() == s->Ok_0.1,
                Err(e) => s is Err && e == s->Err_0,
            }
        }),
{
    let ghost data = buf.bytes();
    let ghost orig = buf.cursor();
    let mut out: Vec<Question> = Vec::new();
    let mut i: u16 = 0;
    proof {
        assert(out@.map_values(|q: Question| q@) =~= Seq::<QuestionV>::empty());
    }
    while i < n
        invariant
            i <= n,
            buf.bytes() == data,
            data == old(buf).bytes(),
            orig == old(buf).cursor(),
            match spec_parse_questions(data, buf.cursor(), n as int - i as int) {
                Ok(qe) => spec_parse_questions(data, orig, n as int) == Ok::<
                    (Seq<QuestionV>, int),
                    DnsError,
                >((out@.map_values(|q: Question| q@) + qe.0, qe.1)),
                Err(e) => spec_parse_questions(data, orig, n as int) == Err::<
                    (Seq<QuestionV>, int),
                    DnsError,
                >(e),
            },
        decreases n - i,
    {
        let ghost cur = buf.cursor();
        match parse_question(buf) {
            Ok(q) => {
                proof {
                    let f = |q: Question| q@;
                    if spec_parse_questions(data, buf.cursor(), n as int - i as int - 1) is Ok {
                        let rest = spec_parse_questions(
                            data,
                            buf.cursor(),
                            n as int - i as int - 1,
                        )->Ok_0;
                        assert(out@.map_values(f) + (seq![q@] + rest.0) =~= out@.push(q).map_values(
                            f,
                        ) + rest.0);
                    }
                }
                out.push(q);
                i = i + 1;
            },
            Err(e) => {
                return Err(e);
            },
        }
    }
    proof {
        assert(out@.map_values(|q: Question| q@) + Seq::<QuestionV>::empty() =~= out@.map_values(
            |q: Question| q@,
        ));
    }
    Ok(out)
}

/// Decode `n` records in sequence at the cursor.
pub fn parse_records(buf: &mut Buffer, n: u16) -> (r: Result<Vec<Record>, DnsError>)
    ensures
        final(buf).bytes() == old(buf).bytes(),
        ({
            let s = spec_parse_records(old(buf).bytes(), old(buf).cursor(), n as int);
            match r {
                Ok(rs) => s is Ok && rs@.map_values(|rec: Record| rec@) == s->Ok_0.0
                    && final(buf).cursor() == s->Ok_0.1,
                Err(e) => s is Err && e == s->Err_0,
            }
        }),
{
    let ghost data = buf.bytes();
    let ghost orig = buf.cursor();
    let mut out: Vec<Record> = Vec::new();
    let mut i: u16 = 0;
    proof {
        assert(out@.map_values(|rec: Record| rec@) =~= Seq::<RecordV>::empty());
    }
    while i < n
        invariant
            i <= n,
            buf.bytes() == data,
            data == old(buf).bytes(),
            orig == old(buf).cursor(),
            match spec_parse_records(data, buf.cursor(), n as int - i as int) {
                Ok(re) => spec_parse_records(data, orig, n as int) == Ok::<
                    (Seq<RecordV>, int),
                    DnsError,
                >((out@.map_values(|rec: Record| rec@) + re.0, re.1)),
                Err(e) => spec_parse_records(data, orig, n as int) == Err::<
                    (Seq<RecordV>, int),
                    DnsError,
                >(e),
            },
        decreases n - i,
    {
        match parse_record(buf) {
            Ok(rec) => {
                proof {
                    let f = |rec: Record| rec@;
                    if spec_parse_records(data, buf.cursor(), n as int - i as int - 1) is Ok {
                        let rest = spec_parse_records(
                            data,
                            buf.cursor(),
                            n as int - i as int - 1,
                        )->Ok_0;
                        assert(out@.map_values(f) + (seq![rec@] + rest.0) =~= out@.push(
                            rec,
                        ).map_values(f) + rest.0);
                    }
                }
                out.push(rec);
                i = i + 1;
            },
            Err(e) => {
                return Err(e);
            },
        }
    }
    proof {
        assert(out@.map_values(|rec: Record| rec@) + Seq::<RecordV>::empty() =~= out@.map_values(
            |rec: Record| rec@,
        ));
    }
    Ok(out)
}

/// A whole message: one header and the four sequences its counts declare, in
/// wire order.
#[derive(Debug, PartialEq, Eq)]
pub struct Message {
    pub header: Header,
    pub questions: Vec<Question>,
    pub answers: Vec<Record>,
    pub authorities: Vec<Record>,
    pub additionals: Vec<Record>,
}

/// The mathematical content of a `Message`.
#[verifier::ext_equal]
pub ghost struct MessageV {
    pub header: Header,
    pub questions: Seq<QuestionV>,
    pub answers: Seq<RecordV>,
    pub authorities: Seq<RecordV>,
    pub additionals: Seq<RecordV>,
}

impl View for Message {
    type V = MessageV;

    open spec fn view(&self) -> MessageV {
        MessageV {
            header: self.header,
            questions: self.questions@.map_values(|q: Question| q@),
            answers: self.answers@.map_values(|r: Record| r@),
            authorities: self.authorities@.map_values(|r: Record| r@),
            additionals: self.additionals@.map_values(|r: Record| r@),
        }
    }
}

/// Parse a whole message: header first, then exactly the declared number of
/// questions, answers, authority records, and additional records, in that
/// order, over one shared position.
pub open spec fn spec_parse_message(data: Seq<u8>) -> Result<MessageV, DnsError> {
    match spec_parse_header(data, 0) {
        Ok(he) => match spec_parse_questions(data, he.1, he.0.num_questions as int) {
            Ok(qs) => match spec_parse_records(data, qs.1, he.0.num_answers as int) {
                Ok(ans) => match spec_parse_records(data, ans.1, he.0.num_authorities as int) {
                    Ok(auth) => match spec_parse_records(data, auth.1, he.0.num_additionals as int) {
                        Ok(add) => Ok(
                            MessageV {
                                header: he.0,
                                questions: qs.0,
                                answers: ans.0,
                                authorities: auth.0,
                                additionals: add.0,
                            },
                        ),
                        Err(e) => Err(e),
                    },
                    Err(e) => Err(e),
                },
                Err(e) => Err(e),
            },
            Err(e) => Err(e),
        },
        Err(e) => Err(e),
    }
}

/// Decode a whole message from `input`. If the buffer runs out before the
/// header's counts are satisfied, the whole decode fails rather than coming
/// back partially filled.
pub fn decode_message(input: &[u8]) -> (r: Result<Message, DnsError>)
    ensures
        match spec_parse_message(input@) {
            Ok(m) => r is Ok && r->Ok_0@ == m,
            Err(e) => r is Err && r->Err_0 == e,
        },
        r matches Ok(m) ==> m@.questions.len() == m@.header.num_questions && m@.answers.len()
            == m@.header.num_answers && m@.authorities.len() == m@.header.num_authorities
            && m@.additionals.len() == m@.header.num_additionals,
{
    proof {
        lemma_message_counts(input@);
    }
    let mut buffer = Buffer::new(vstd::slice::slice_to_vec(input));
    let header = match parse_header(&mut buffer) {
        Ok(h) => h,
        Err(e) => {
            return Err(e);
        },
    };
    let questions = match parse_questions(&mut buffer, header.num_questions) {
        Ok(v) => v,
        Err(e) => {
            return Err(e);
        },
    };
    let answers = match parse_records(&mut buffer, header.num_answers) {
        Ok(v) => v,
        Err(e) => {
            return Err(e);
        },
    };
    let authorities = match parse_records(&mut buffer, header.num_authorities) {
        Ok(v) => v,
        Err(e) => {
            return Err(e);
        },
    };
    let additionals = match parse_records(&mut buffer, header.num_additionals) {
        Ok(v) => v,
        Err(e) => {
            return Err(e);
        },
    };
    let msg = Message { header, questions, answers, authorities, additionals };
    proof {
        assert(msg@ =~~= spec_parse_message(input@)->Ok_0);
    }
    Ok(msg)
}

/// The header of a minimal outbound query: question count one, every other
/// count zero, and no flag bits set.
pub open spec fn query_header(id: u16) -> Header {
    Header {
        id,
        flags: 0,
        num_questions: 1,
        num_answers: 0,
        num_authorities: 0,
        num_additionals: 0,
    }
}

/// Build the bytes of a minimal query for `domain`: a header with question
/// count one and zeroed flags, then one question with the requested record
/// type and query class IN. Transport framing is the caller's concern.
pub fn build_query(domain: &str, id: u16, record_type: u16) -> (r: Result<Vec<u8>, DnsError>)
    ensures
        valid_domain(domain.spec_bytes()) ==> r is Ok && r->Ok_0@ == header_bytes(query_header(id))
            + question_wire(wire_name(split_labels(domain.spec_bytes())), record_type, CLASS_IN),
        !valid_domain(domain.spec_bytes()) ==> r == Err::<Vec<u8>, DnsError>(
            DnsError::InvalidLabel,
        ),
{
    let name = match encode_name(domain) {
        Ok(n) => n,
        Err(e) => {
            return Err(e);
        },
    };
    let header = Header {
        id,
        flags: 0,
        num_questions: 1,
        num_answers: 0,
        num_authorities: 0,
        num_additionals: 0,
    };
    let question = Question { name, qtype: record_type, qclass: CLASS_IN };
    let mut out = encode_header(&header);
    let mut qbytes = encode_question(&question);
    out.append(&mut qbytes);
    Ok(out)
}

/// Header round trip: decoding the twelve bytes the encoder lays down gives
/// back exactly the header, whatever its six field values.
pub proof fn lemma_header_round_trip(h: Header)
    ensures
        spec_parse_header(header_bytes(h), 0) == Ok::<(Header, int), DnsError>((h, 12)),
{
    let data = header_bytes(h);
    assert(data.len() == 12);
    lemma_be16_recompose(h.id, data, 0);
    lemma_be16_recompose(h.flags, data, 2);
    lemma_be16_recompose(h.num_questions, data, 4);
    lemma_be16_recompose(h.num_answers, data, 6);
    lemma_be16_recompose(h.num_authorities, data, 8);
    lemma_be16_recompose(h.num_additionals, data, 10);
}

/// Reading back the two big-endian bytes of a 16-bit value gives the value.
proof fn lemma_be16_recompose(x: u16, data: Seq<u8>, i: int)
    requires
        0 <= i,
        i + 2 <= data.len(),
        data[i] == (x / 0x100) as u8,
        data[i + 1] == (x % 0x100) as u8,
    ensures
        be16(data, i) == x,
{
}

/// A successful parse yields exactly `n` questions.
pub proof fn lemma_parse_questions_len(data: Seq<u8>, pos: int, n: int)
    requires
        n >= 0,
    ensures
        spec_parse_questions(data, pos, n) matches Ok(qe) ==> qe.0.len() == n,
    decreases n,
{
    if n > 0 {
        match spec_parse_question(data, pos) {
            Ok(qe) => lemma_parse_questions_len(data, qe.1, n - 1),
            Err(_) => {},
        }
    }
}

/// A successful parse yields exactly `n` records.
pub proof fn lemma_parse_records_len(data: Seq<u8>, pos: int, n: int)
    requires
        n >= 0,
    ensures
        spec_parse_records(data, pos, n) matches Ok(re) ==> re.0.len() == n,
    decreases n,
{
    if n > 0 {
        match spec_parse_record(data, pos) {
            Ok(re) => lemma_parse_records_len(data, re.1, n - 1),
            Err(_) => {},
        }
    }
}

/// A parsed message's four sequences have exactly the lengths the header's
/// counts declare.
pub proof fn lemma_message_counts(data: Seq<u8>)
    ensures
        spec_parse_message(data) matches Ok(m) ==> m.questions.len() == m.header.num_questions
            && m.answers.len() == m.header.num_answers && m.authorities.len()
            == m.header.num_authorities && m.additionals.len() == m.header.num_additionals,
{
    if spec_parse_message(data) is Ok {
        let he = spec_parse_header(data, 0)->Ok_0;
        let h = he.0;
        lemma_parse_questions_len(data, he.1, h.num_questions as int);
        let qs = spec_parse_questions(data, he.1, h.num_questions as int)->Ok_0;
        lemma_parse_records_len(data, qs.1, h.num_answers as int);
        let ans = spec_parse_records(data, qs.1, h.num_answers as int)->Ok_0;
        lemma_parse_records_len(data, ans.1, h.num_authorities as int);
        let auth = spec_parse_records(data, ans.1, h.num_authorities as int)->Ok_0;
        lemma_parse_records_len(data, auth.1, h.num_additionals as int);
    }
}

/// A question occupies at least 5 bytes: a name of at least one byte, then
/// four bytes of type and class.
pub proof fn lemma_parse_question_min(data: Seq<u8>, pos: int)
    requires
        0 <= pos,
    ensures
        spec_parse_question(data, pos) matches Ok(qe) ==> pos + 5 <= qe.1 <= data.len(),
{
    lemma_name_at_end_bounds(data, pos, pos);
}

/// A record occupies at least 11 bytes: a name of at least one byte, then
/// ten bytes of fixed fields.
pub proof fn lemma_parse_record_min(data: Seq<u8>, pos: int)
    requires
        0 <= pos,
    ensures
        spec_parse_record(data, pos) matches Ok(re) ==> pos + 11 <= re.1 <= data.len(),
{
    lemma_name_at_end_bounds(data, pos, pos);
}

/// `n` questions occupy at least `5 * n` bytes and never pass the end.
pub proof fn lemma_parse_questions_min(data: Seq<u8>, pos: int, n: int)
    requires
        0 <= pos,
        0 <= n,
    ensures
        spec_parse_questions(data, pos, n) matches Ok(qe) ==> qe.1 >= pos + 5 * n && (n == 0
            ==> qe.1 == pos) && (n > 0 ==> qe.1 <= data.len()),
    decreases n,
{
    if n > 0 {
        match spec_parse_question(data, pos) {
            Ok(qe) => {
                lemma_parse_question_min(data, pos);
                lemma_parse_questions_min(data, qe.1, n - 1);
            },
            Err(_) => {},
        }
    }
}

/// `n` records occupy at least `11 * n` bytes and never pass the end.
pub proof fn lemma_parse_records_min(data: Seq<u8>, pos: int, n: int)
    requires
        0 <= pos,
        0 <= n,
    ensures
        spec_parse_records(data, pos, n) matches Ok(re) ==> re.1 >= pos + 11 * n && (n == 0
            ==> re.1 == pos) && (n > 0 ==> re.1 <= data.len()),
    decreases n,
{
    if n > 0 {
        match spec_parse_record(data, pos) {
            Ok(re) => {
                lemma_parse_record_min(data, pos);
                lemma_parse_records_min(data, re.1, n - 1);
            },
            Err(_) => {},
        }
    }
}

/// Count-mismatch safety: a message whose header declares more questions and
/// records than the bytes after the header could possibly supply (at least 5
/// bytes per question, 11 per record) never parses successfully.
pub proof fn lemma_count_mismatch_fails(data: Seq<u8>)
    requires
        data.len() < 12 + 5 * (be16(data, 4) as int) + 11 * ((be16(data, 6) as int) + (be16(
            data,
            8,
        ) as int) + (be16(data, 10) as int)),
    ensures
        spec_parse_message(data) is Err,
{
    if data.len() >= 12 && spec_parse_message(data) is Ok {
        let he = spec_parse_header(data, 0)->Ok_0;
        let h = he.0;
        let qd = h.num_questions as int;
        let an = h.num_answers as int;
        let ns = h.num_authorities as int;
        let ar = h.num_additionals as int;
        lemma_parse_questions_min(data, 12, qd);
        let qs = spec_parse_questions(data, 12, qd)->Ok_0;
        lemma_parse_records_min(data, qs.1, an);
        let ans = spec_parse_records(data, qs.1, an)->Ok_0;
        lemma_parse_records_min(data, ans.1, ns);
        let auth = spec_parse_records(data, ans.1, ns)->Ok_0;
        lemma_parse_records_min(data, auth.1, ar);
        let add = spec_parse_records(data, auth.1, ar)->Ok_0;
        assert(add.1 >= 12 + 5 * qd + 11 * (an + ns + ar));
        if ar > 0 {
            assert(add.1 <= data.len());
        } else if ns > 0 {
            assert(add.1 == auth.1 && auth.1 <= data.len());
        } else if an > 0 {
            assert(add.1 == ans.1 && ans.1 <= data.len());
        } else if qd > 0 {
            assert(add.1 == qs.1 && qs.1 <= data.len());
        } else {
            assert(add.1 == 12);
        }
        assert(false);
    }
}


/// In pointer-free data a failed question parse is a BufferUnderrun.
pub proof fn lemma_parse_question_pointer_free_err(data: Seq<u8>, pos: int)
    requires
        0 <= pos,
        pointer_free(data),
    ensures
        spec_parse_question(data, pos) is Err ==> spec_parse_question(data, pos) == Err::<
            (QuestionV, int),
            DnsError,
        >(DnsError::BufferUnderrun),
{
    lemma_name_at_pointer_free_err(data, pos, pos);
}

/// In pointer-free data a failed record parse is a BufferUnderrun.
pub proof fn lemma_parse_record_pointer_free_err(data: Seq<u8>, pos: int)
    requires
        0 <= pos,
        pointer_free(data),
    ensures
        spec_parse_record(data, pos) is Err ==> spec_parse_record(data, pos) == Err::<
            (RecordV, int),
            DnsError,
        >(DnsError::BufferUnderrun),
{
    lemma_name_at_pointer_free_err(data, pos, pos);
}

/// In pointer-free data a failed parse of a question sequence is a
/// BufferUnderrun.
pub proof fn lemma_parse_questions_pointer_free_err(data: Seq<u8>, pos: int, n: int)
    requires
        0 <= pos,
        0 <= n,
        pointer_free(data),
    ensures
        spec_parse_questions(data, pos, n) is Err ==> spec_parse_questions(data, pos, n) == Err::<
            (Seq<QuestionV>, int),
            DnsError,
        >(DnsError::BufferUnderrun),
    decreases n,
{
    if n > 0 {
        lemma_parse_question_pointer_free_err(data, pos);
        match spec_parse_question(data, pos) {
            Ok(qe) => {
                lemma_parse_question_min(data, pos);
                lemma_parse_questions_pointer_free_err(data, qe.1, n - 1);
            },
            Err(_) => {},
        }
    }
}

/// In pointer-free data a failed parse of a record sequence is a
/// BufferUnderrun.
pub proof fn lemma_parse_records_pointer_free_err(data: Seq<u8>, pos: int, n: int)
    requires
        0 <= pos,
        0 <= n,
        pointer_free(data),
    ensures
        spec_parse_records(data, pos, n) is Err ==> spec_parse_records(data, pos, n) == Err::<
            (Seq<RecordV>, int),
            DnsError,
        >(DnsError::BufferUnderrun),
    decreases n,
{
    if n > 0 {
        lemma_parse_record_pointer_free_err(data, pos);
        match spec_parse_record(data, pos) {
            Ok(re) => {
                lemma_parse_record_min(data, pos);
                lemma_parse_records_pointer_free_err(data, re.1, n - 1);
            },
            Err(_) => {},
        }
    }
}

/// Count-mismatch safety, sharpened for a message with no pointer-shaped
/// byte anywhere (fields and payloads included): when the header declares
/// more questions and records than the bytes could possibly supply, the
/// parse fails with BufferUnderrun exactly. With pointers present the parse
/// still fails (`lemma_count_mismatch_fails`), but a bad pointer may be hit
/// first and reported as InvalidPointer.
pub proof fn lemma_count_mismatch_underrun(data: Seq<u8>)
    requires
        pointer_free(data),
        data.len() < 12 + 5 * (be16(data, 4) as int) + 11 * ((be16(data, 6) as int) + (be16(
            data,
            8,
        ) as int) + (be16(data, 10) as int)),
    ensures
        spec_parse_message(data) == Err::<MessageV, DnsError>(DnsError::BufferUnderrun),
{
    lemma_count_mismatch_fails(data);
    if data.len() >= 12 {
        let he = spec_parse_header(data, 0)->Ok_0;
        let h = he.0;
        lemma_parse_questions_pointer_free_err(data, 12, h.num_questions as int);
        match spec_parse_questions(data, 12, h.num_questions as int) {
            Ok(qs) => {
                lemma_parse_questions_min(data, 12, h.num_questions as int);
                lemma_parse_records_pointer_free_err(data, qs.1, h.num_answers as int);
                match spec_parse_records(data, qs.1, h.num_answers as int) {
                    Ok(ans) => {
                        lemma_parse_records_min(data, qs.1, h.num_answers as int);
                        lemma_parse_records_pointer_free_err(data, ans.1, h.num_authorities as int);
                        match spec_parse_records(data, ans.1, h.num_authorities as int) {
                            Ok(auth) => {
                                lemma_parse_records_min(data, ans.1, h.num_authorities as int);
                                lemma_parse_records_pointer_free_err(
                                    data,
                                    auth.1,
                                    h.num_additionals as int,
                                );
                            },
                            Err(_) => {},
                        }
                    },
                    Err(_) => {},
                }
            },
            Err(_) => {},
        }
    }
}

} // verus!



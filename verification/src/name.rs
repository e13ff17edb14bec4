use vstd::prelude::*;
use vstd::string::StringSliceAdditionalSpecFns;

use crate::buffer::{bytes_model, bytes_get, bytes_len, bytes_slice, bytes_to_vec, Buffer};
use crate::err::DnsError;

verus! {

/// The byte that separates labels in a dotted domain string.
pub const SEPARATOR: u8 = 46;

/// The labels of a dotted domain: the segments between `.` separators, in
/// order. An empty input or an empty segment yields an empty label.
pub open spec fn split_labels(s: Seq<u8>) -> Seq<Seq<u8>>
    decreases s.len(),
{
    if s.len() == 0 {
        seq![Seq::<u8>::empty()]
    } else if s[0] == SEPARATOR {
        seq![Seq::<u8>::empty()] + split_labels(s.drop_first())
    } else {
        let rest = split_labels(s.drop_first());
        seq![seq![s[0]] + rest[0]] + rest.drop_first()
    }
}

/// Labels joined back into a dotted byte string, with no trailing separator.
pub open spec fn join_labels(labels: Seq<Seq<u8>>) -> Seq<u8>
    decreases labels.len(),
{
    if labels.len() == 0 {
        Seq::empty()
    } else if labels.len() == 1 {
        labels[0]
    } else {
        labels[0] + seq![SEPARATOR] + join_labels(labels.drop_first())
    }
}

/// The wire form of a sequence of labels, without the terminator: for each
/// label, one length byte followed by the label's bytes.
pub open spec fn wire_labels(labels: Seq<Seq<u8>>) -> Seq<u8>
    decreases labels.len(),
{
    if labels.len() == 0 {
        Seq::empty()
    } else {
        seq![labels[0].len() as u8] + labels[0] + wire_labels(labels.drop_first())
    }
}

/// The full wire form of an uncompressed name: length-prefixed labels followed
/// by a zero terminator byte.
pub open spec fn wire_name(labels: Seq<Seq<u8>>) -> Seq<u8> {
    wire_labels(labels) + seq![0u8]
}

/// A label that may stand on the wire: 1 to 63 bytes.
pub open spec fn valid_label(l: Seq<u8>) -> bool {
    1 <= l.len() <= 63
}

pub open spec fn valid_labels(labels: Seq<Seq<u8>>) -> bool {
    forall|i: int| 0 <= i < labels.len() ==> valid_label(#[trigger] labels[i])
}

/// A domain string that the encoder accepts: every dot-separated segment is a
/// valid label and the encoded name fits in 255 bytes.
pub open spec fn valid_domain(s: Seq<u8>) -> bool {
    valid_labels(split_labels(s)) && wire_name(split_labels(s)).len() <= 255
}

/// A length byte whose top two bits are set: the first byte of a two-byte
/// compression pointer.
pub open spec fn is_pointer_byte(b: u8) -> bool {
    b & 0xC0 == 0xC0
}

/// The 14-bit offset held by the compression pointer whose two bytes stand at
/// `pos` in `data`.
pub open spec fn pointer_target(data: Seq<u8>, pos: int) -> int {
    ((data[pos] & 0x3F) as int) * 0x100 + (data[pos + 1] as int)
}

/// Compression-aware name decoding, as a mathematical function: the labels of
/// the name whose wire form starts at `pos` in `data`, together with the
/// position just past the bytes the name occupies at the outermost level.
///
/// `start` is the position where the name itself began: a compression pointer
/// is followed only if its target is strictly earlier than `start`, which
/// rules out every cycle and bounds the recursion. A pointer always ends the
/// name at its own level.
pub open spec fn name_at(data: Seq<u8>, start: int, pos: int) -> Result<(Seq<Seq<u8>>, int), DnsError>
    decreases start, data.len() - pos,
    when 0 <= start <= pos
{
    if pos >= data.len() {
        Err(DnsError::BufferUnderrun)
    } else {
        let len = data[pos];
        if len == 0 {
            Ok((Seq::empty(), pos + 1))
        } else if is_pointer_byte(len) {
            if pos + 2 > data.len() {
                Err(DnsError::BufferUnderrun)
            } else {
                let target = pointer_target(data, pos);
                if target < start {
                    match name_at(data, target, target) {
                        Ok(le) => Ok((le.0, pos + 2)),
                        Err(e) => Err(e),
                    }
                } else {
                    Err(DnsError::InvalidPointer)
                }
            }
        } else {
            if pos + 1 + (len as int) > data.len() {
                Err(DnsError::BufferUnderrun)
            } else {
                let label = data.subrange(pos + 1, pos + 1 + (len as int));
                match name_at(data, start, pos + 1 + (len as int)) {
                    Ok(le) => Ok((seq![label] + le.0, le.1)),
                    Err(e) => Err(e),
                }
            }
        }
    }
}

/// Name decoding with no pointer interpretation: every nonzero length byte is
/// taken as a plain label length, whatever its top bits. Using this on
/// compressed data misreads the pointer bytes as a label.
pub open spec fn name_at_simple(data: Seq<u8>, pos: int) -> Result<(Seq<Seq<u8>>, int), DnsError>
    decreases data.len() - pos,
    when 0 <= pos
{
    if pos >= data.len() {
        Err(DnsError::BufferUnderrun)
    } else {
        let len = data[pos];
        if len == 0 {
            Ok((Seq::empty(), pos + 1))
        } else if pos + 1 + (len as int) > data.len() {
            Err(DnsError::BufferUnderrun)
        } else {
            let label = data.subrange(pos + 1, pos + 1 + (len as int));
            match name_at_simple(data, pos + 1 + (len as int)) {
                Ok(le) => Ok((seq![label] + le.0, le.1)),
                Err(e) => Err(e),
            }
        }
    }
}

/// Every label a decode produces holds at least one byte: a zero length byte
/// is a terminator, never a label.
pub proof fn lemma_name_at_labels_nonempty(data: Seq<u8>, start: int, pos: int)
    requires
        0 <= start <= pos,
    ensures
        name_at(data, start, pos) matches Ok(le) ==> forall|i: int|
            0 <= i < le.0.len() ==> #[trigger] le.0[i].len() >= 1,
    decreases start, data.len() - pos,
{
    if pos < data.len() {
        let len = data[pos];
        if len == 0 {
        } else if is_pointer_byte(len) {
            if pos + 2 <= data.len() {
                let target = pointer_target(data, pos);
                if target < start {
                    lemma_name_at_labels_nonempty(data, target, target);
                }
            }
        } else {
            if pos + 1 + (len as int) <= data.len() {
                lemma_name_at_labels_nonempty(data, start, pos + 1 + (len as int));
            }
        }
    }
}

/// A successful decode consumes at least one byte and never passes the end.
pub proof fn lemma_name_at_end_bounds(data: Seq<u8>, start: int, pos: int)
    requires
        0 <= start <= pos,
    ensures
        name_at(data, start, pos) matches Ok(le) ==> pos < le.1 <= data.len(),
    decreases start, data.len() - pos,
{
    if pos < data.len() {
        let len = data[pos];
        if len == 0 {
        } else if is_pointer_byte(len) {
        } else {
            if pos + 1 + (len as int) <= data.len() {
                lemma_name_at_end_bounds(data, start, pos + 1 + (len as int));
            }
        }
    }
}

/// Joining a first label onto an already-joined tail.
pub proof fn lemma_join_cons(l: Seq<u8>, rest: Seq<Seq<u8>>)
    ensures
        join_labels(seq![l] + rest) == if rest.len() == 0 {
            l
        } else {
            l + seq![SEPARATOR] + join_labels(rest)
        },
{
    let all = seq![l] + rest;
    assert(all[0] == l);
    if rest.len() == 0 {
        assert(all.len() == 1);
    } else {
        assert(all.drop_first() =~= rest);
    }
}

/// A joined name is at least as long as its first label.
pub proof fn lemma_join_len(labels: Seq<Seq<u8>>)
    requires
        labels.len() >= 1,
    ensures
        join_labels(labels).len() >= labels[0].len(),
{
}

/// Decode the name whose wire form starts at `pos`, following compression
/// pointers, with `start` as the bound no pointer target may reach. Returns
/// the dotted name and the position just past the name's outermost bytes.
pub(crate) fn decode_name_at(data: &bytes::Bytes, start: usize, pos: usize) -> (r: Result<
    (Vec<u8>, usize),
    DnsError,
>)
    requires
        start <= pos,
    ensures
        ({
            let s = name_at(bytes_model(*data), start as int, pos as int);
            match r {
                Ok(p) => s is Ok && p.0@ == join_labels(s->Ok_0.0) && p.1 as int == s->Ok_0.1,
                Err(e) => s is Err && e == s->Err_0,
            }
        }),
    decreases start as int, bytes_model(*data).len() - pos as int,
{
    let n = bytes_len(data);
    if pos >= n {
        return Err(DnsError::BufferUnderrun);
    }
    let len = bytes_get(data, pos).unwrap();
    if len == 0 {
        Ok((Vec::new(), pos + 1))
    } else if len & 0xC0 == 0xC0 {
        if n - pos < 2 {
            Err(DnsError::BufferUnderrun)
        } else {
            let lo = bytes_get(data, pos + 1).unwrap();
            let target = ((len & 0x3F) as usize) * 0x100 + (lo as usize);
            if target < start {
                match decode_name_at(data, target, target) {
                    Ok(p) => Ok((p.0, pos + 2)),
                    Err(e) => Err(e),
                }
            } else {
                Err(DnsError::InvalidPointer)
            }
        }
    } else {
        let llen = len as usize;
        if n - pos - 1 < llen {
            Err(DnsError::BufferUnderrun)
        } else {
            match decode_name_at(data, start, pos + 1 + llen) {
                Ok(p) => {
                    let (mut rest, end) = p;
                    let mut name = bytes_to_vec(&bytes_slice(data, pos + 1, pos + 1 + llen));
                    proof {
                        let ghost s = bytes_model(*data);
                        lemma_name_at_labels_nonempty(s, start as int, pos + 1 + llen);
                        let le = name_at(s, start as int, pos + 1 + llen as int)->Ok_0;
                        if le.0.len() >= 1 {
                            lemma_join_len(le.0);
                        }
                        lemma_join_cons(
                            s.subrange(pos + 1, pos + 1 + (len as int)),
                            le.0,
                        );
                    }
                    if rest.len() > 0 {
                        name.push(SEPARATOR);
                        name.append(&mut rest);
                    }
                    Ok((name, end))
                },
                Err(e) => Err(e),
            }
        }
    }
}

impl Buffer {
    /// Compression-aware name decode at the cursor: the "full" variant. On
    /// success the cursor stands just past the name's outermost bytes (after
    /// the terminator, or after the two pointer bytes); on failure it has not
    /// moved.
    pub fn decode_name(&mut self) -> (r: Result<Vec<u8>, DnsError>)
        ensures
            final(self).bytes() == old(self).bytes(),
            old(self).wf() ==> final(self).wf(),
            ({
                let s = name_at(old(self).bytes(), old(self).cursor(), old(self).cursor());
                match r {
                    Ok(name) => s is Ok && name@ == join_labels(s->Ok_0.0) && final(self).cursor()
                        == s->Ok_0.1,
                    Err(e) => s is Err && e == s->Err_0 && final(self).cursor() == old(
                        self,
                    ).cursor(),
                }
            }),
    {
        proof {
            lemma_name_at_end_bounds(self.bytes(), self.cursor(), self.cursor());
        }
        match decode_name_at(&self.data, self.pos, self.pos) {
            Ok(p) => {
                self.pos = p.1;
                Ok(p.0)
            },
            Err(e) => Err(e),
        }
    }
}

/// Joining one more label onto the end of a name.
pub proof fn lemma_join_snoc(labels: Seq<Seq<u8>>, l: Seq<u8>)
    ensures
        join_labels(labels.push(l)) == if labels.len() == 0 {
            l
        } else {
            join_labels(labels) + seq![SEPARATOR] + l
        },
    decreases labels.len(),
{
    if labels.len() == 0 {
        assert(labels.push(l).len() == 1);
        assert(labels.push(l)[0] == l);
    } else {
        lemma_join_snoc(labels.drop_first(), l);
        assert(labels.push(l).drop_first() =~= labels.drop_first().push(l));
        assert(labels.push(l)[0] == labels[0]);
        if labels.len() == 1 {
            assert(join_labels(labels) == labels[0]);
        }
    }
}

impl Buffer {
    /// Name decode with no pointer interpretation at the cursor: the "simple"
    /// variant, for wire data known to hold no compression pointers. A length
    /// byte with its top two bits set is read as an ordinary (large) label
    /// length, so running this on compressed data misreads the pointer. On
    /// failure the cursor has not moved.
    #[verifier::loop_isolation(false)]
    pub fn decode_name_simple(&mut self) -> (r: Result<Vec<u8>, DnsError>)
        ensures
            final(self).bytes() == old(self).bytes(),
            old(self).wf() ==> final(self).wf(),
            ({
                let s = name_at_simple(old(self).bytes(), old(self).cursor());
                match r {
                    Ok(name) => s is Ok && name@ == join_labels(s->Ok_0.0) && final(self).cursor()
                        == s->Ok_0.1,
                    Err(e) => s is Err && e == s->Err_0 && final(self).cursor() == old(
                        self,
                    ).cursor(),
                }
            }),
    {
        let ghost data = self.bytes();
        let ghost orig = self.cursor();
        let saved = self.pos;
        let n = bytes_len(&self.data);
        if self.pos > n {
            return Err(DnsError::BufferUnderrun);
        }
        let mut out: Vec<u8> = Vec::new();
        let ghost mut prefix: Seq<Seq<u8>> = Seq::empty();
        loop
            invariant
                self.bytes() == data,
                0 <= orig <= self.cursor() <= data.len(),
                saved as int == orig,
                out@ == join_labels(prefix),
                forall|i: int| 0 <= i < prefix.len() ==> #[trigger] prefix[i].len() >= 1,
                match name_at_simple(data, self.cursor()) {
                    Ok(le) => name_at_simple(data, orig) == Ok::<(Seq<Seq<u8>>, int), DnsError>(
                        (prefix + le.0, le.1),
                    ),
                    Err(e) => name_at_simple(data, orig) == Err::<(Seq<Seq<u8>>, int), DnsError>(e),
                },
            decreases data.len() - self.cursor(),
        {
            let ghost cur = self.cursor();
            let len = match self.read_label_length() {
                Ok(l) => l,
                Err(e) => {
                    self.pos = saved;
                    return Err(e);
                },
            };
            if len == 0 {
                proof {
                    assert(prefix + Seq::<Seq<u8>>::empty() =~= prefix);
                }
                return Ok(out);
            }
            let llen = len as usize;
            match self.take(llen) {
                Ok(mut label_bytes) => {
                    proof {
                        if prefix.len() > 0 {
                            lemma_join_len(prefix);
                        }
                        lemma_join_snoc(prefix, label_bytes@);
                    }
                    if out.len() > 0 {
                        out.push(SEPARATOR);
                    }
                    out.append(&mut label_bytes);
                    proof {
                        let label = data.subrange(cur + 1, cur + 1 + llen as int);
                        let prefix0 = prefix;
                        prefix = prefix.push(label);
                        if name_at_simple(data, cur + 1 + llen as int) is Ok {
                            let le2 = name_at_simple(data, cur + 1 + llen as int)->Ok_0;
                            assert(prefix0 + (seq![label] + le2.0) =~= prefix + le2.0);
                        }
                    }
                },
                Err(e) => {
                    self.pos = saved;
                    return Err(e);
                },
            }
        }
    }
}

/// Decode an uncompressed name from the start of `input`: the simple,
/// non-compression-aware variant.
pub fn decode_name_simple(input: &[u8]) -> (r: Result<Vec<u8>, DnsError>)
    ensures
        ({
            let s = name_at_simple(input@, 0);
            match r {
                Ok(name) => s is Ok && name@ == join_labels(s->Ok_0.0),
                Err(e) => s is Err && e == s->Err_0,
            }
        }),
{
    let mut buffer = Buffer::new(vstd::slice::slice_to_vec(input));
    buffer.decode_name_simple()
}

/// Decode a name from the start of `input`, following compression pointers:
/// the full variant.
pub fn decode_name_full(input: &[u8]) -> (r: Result<Vec<u8>, DnsError>)
    ensures
        ({
            let s = name_at(input@, 0, 0);
            match r {
                Ok(name) => s is Ok && name@ == join_labels(s->Ok_0.0),
                Err(e) => s is Err && e == s->Err_0,
            }
        }),
{
    let mut buffer = Buffer::new(vstd::slice::slice_to_vec(input));
    buffer.decode_name()
}

/// Splitting a string with no separator yields that string as the one label.
pub proof fn lemma_split_no_dot(s: Seq<u8>)
    requires
        forall|j: int| 0 <= j < s.len() ==> s[j] != SEPARATOR,
    ensures
        split_labels(s) == seq![s],
    decreases s.len(),
{
    if s.len() == 0 {
        assert(split_labels(s) =~~= seq![s]);
    } else {
        lemma_split_no_dot(s.drop_first());
        assert(seq![s[0]] + s.drop_first() =~= s);
        assert(split_labels(s) =~~= seq![s]);
    }
}

/// Splitting at the first separator peels off the first label.
pub proof fn lemma_split_at_dot(s: Seq<u8>, i: int)
    requires
        0 <= i < s.len(),
        s[i] == SEPARATOR,
        forall|j: int| 0 <= j < i ==> s[j] != SEPARATOR,
    ensures
        split_labels(s) == seq![s.subrange(0, i)] + split_labels(s.subrange(i + 1, s.len() as int)),
    decreases i,
{
    if i == 0 {
        assert(s.subrange(0, 0) =~= Seq::<u8>::empty());
        assert(s.subrange(1, s.len() as int) =~= s.drop_first());
        assert(split_labels(s) =~~= seq![s.subrange(0, 0)] + split_labels(
            s.subrange(1, s.len() as int),
        ));
    } else {
        let d = s.drop_first();
        lemma_split_at_dot(d, i - 1);
        assert(d.subrange(0, i - 1) =~= s.subrange(1, i));
        assert(seq![s[0]] + s.subrange(1, i) =~= s.subrange(0, i));
        assert(d.subrange(i, d.len() as int) =~= s.subrange(i + 1, s.len() as int));
        assert((seq![d.subrange(0, i - 1)] + split_labels(d.subrange(i, d.len() as int)))
            .drop_first() =~= split_labels(d.subrange(i, d.len() as int)));
        assert(split_labels(s) =~~= seq![s.subrange(0, i)] + split_labels(
            s.subrange(i + 1, s.len() as int),
        ));
    }
}

/// Wire form of one more label at the end of a name.
pub proof fn lemma_wire_labels_snoc(labels: Seq<Seq<u8>>, l: Seq<u8>)
    ensures
        wire_labels(labels.push(l)) == wire_labels(labels) + seq![l.len() as u8] + l,
    decreases labels.len(),
{
    if labels.len() == 0 {
        assert(labels.push(l)[0] == l);
        assert(labels.push(l).drop_first() =~= Seq::<Seq<u8>>::empty());
        assert(wire_labels(Seq::<Seq<u8>>::empty()) == Seq::<u8>::empty());
        assert(wire_labels(labels.push(l)) =~= wire_labels(labels) + seq![l.len() as u8] + l);
    } else {
        lemma_wire_labels_snoc(labels.drop_first(), l);
        assert(labels.push(l).drop_first() =~= labels.drop_first().push(l));
        assert(labels.push(l)[0] == labels[0]);
        assert(wire_labels(labels.push(l)) =~= wire_labels(labels) + seq![l.len() as u8] + l);
    }
}

/// Encode a dotted domain, given as its bytes, into wire form: a length byte
/// and the segment's bytes for each dot-separated segment, then a zero
/// terminator byte. An empty segment (leading, trailing, or doubled
/// separator), a segment over 63 bytes, and a name whose encoding would pass
/// 255 bytes are all rejected.
pub fn encode_name_bytes(domain: &[u8]) -> (r: Result<Vec<u8>, DnsError>)
    ensures
        valid_domain(domain@) ==> r is Ok && r->Ok_0@ == wire_name(split_labels(domain@)),
        !valid_domain(domain@) ==> r == Err::<Vec<u8>, DnsError>(DnsError::InvalidLabel),
{
    let d: Vec<u8> = vstd::slice::slice_to_vec(domain);
    let n = d.len();
    let mut out: Vec<u8> = Vec::new();
    let mut k: usize = 0;
    let ghost mut done: Seq<Seq<u8>> = Seq::empty();
    proof {
        assert(domain@.subrange(0, n as int) =~= domain@);
        assert(done + split_labels(domain@) =~= split_labels(domain@));
    }
    loop
        invariant_except_break
            k <= n,
            n == domain@.len(),
            d@ == domain@,
            split_labels(domain@) == done + split_labels(domain@.subrange(k as int, n as int)),
            out@ == wire_labels(done),
            valid_labels(done),
        ensures
            out@ == wire_labels(done),
            split_labels(domain@) == done,
            valid_labels(done),
        decreases n - k,
    {
        let mut j = k;
        while j < n && d[j] != SEPARATOR
            invariant
                k <= j <= n,
                n == domain@.len(),
                d@ == domain@,
                forall|t: int| k <= t < j ==> domain@[t] != SEPARATOR,
            decreases n - j,
        {
            j = j + 1;
        }
        let ghost rem = domain@.subrange(k as int, n as int);
        proof {
            if j == n {
                lemma_split_no_dot(rem);
                assert(rem =~= domain@.subrange(k as int, j as int));
            } else {
                lemma_split_at_dot(rem, j - k);
                assert(rem.subrange(0, j - k) =~= domain@.subrange(k as int, j as int));
                assert(rem.subrange(j - k + 1, rem.len() as int) =~= domain@.subrange(
                    j + 1,
                    n as int,
                ));
            }
            assert(split_labels(rem)[0] == domain@.subrange(k as int, j as int));
        }
        let ghost seg = domain@.subrange(k as int, j as int);
        proof {
            assert(split_labels(domain@)[done.len() as int] == seg);
        }
        if j == k || j - k > 63 {
            proof {
                assert(!valid_label(seg));
                assert(!valid_labels(split_labels(domain@)));
            }
            return Err(DnsError::InvalidLabel);
        }
        out.push((j - k) as u8);
        let mut seg_vec = vstd::slice::slice_to_vec(vstd::slice::slice_subrange(domain, k, j));
        out.append(&mut seg_vec);
        proof {
            lemma_wire_labels_snoc(done, seg);
            done = done.push(seg);
            assert(out@ =~= wire_labels(done));
        }
        if j == n {
            proof {
                assert(split_labels(domain@) =~= done);
            }
            break;
        }
        k = j + 1;
        proof {
            assert(split_labels(domain@) =~= done + split_labels(
                domain@.subrange(k as int, n as int),
            ));
        }
    }
    out.push(0);
    proof {
        assert(out@ =~= wire_name(split_labels(domain@)));
    }
    if out.len() > 255 {
        return Err(DnsError::InvalidLabel);
    }
    Ok(out)
}

/// Encode a dotted domain string into wire form; the domain is taken as its
/// UTF-8 bytes. See `encode_name_bytes`.
pub fn encode_name(domain: &str) -> (r: Result<Vec<u8>, DnsError>)
    ensures
        valid_domain(domain.spec_bytes()) ==> r is Ok && r->Ok_0@ == wire_name(
            split_labels(domain.spec_bytes()),
        ),
        !valid_domain(domain.spec_bytes()) ==> r == Err::<Vec<u8>, DnsError>(
            DnsError::InvalidLabel,
        ),
{
    encode_name_bytes(domain.as_bytes())
}

/// A split always yields at least one segment.
pub proof fn lemma_split_nonempty(s: Seq<u8>)
    ensures
        split_labels(s).len() >= 1,
    decreases s.len(),
{
    if s.len() > 0 {
        lemma_split_nonempty(s.drop_first());
    }
}

/// Joining the labels a split produced gives back the original string.
pub proof fn lemma_join_split(s: Seq<u8>)
    ensures
        join_labels(split_labels(s)) == s,
    decreases s.len(),
{
    if s.len() == 0 {
    } else {
        lemma_join_split(s.drop_first());
        let sp = split_labels(s.drop_first());
        lemma_split_nonempty(s.drop_first());
        assert(sp =~= seq![sp[0]] + sp.drop_first());
        lemma_join_cons(sp[0], sp.drop_first());
        if s[0] == SEPARATOR {
            lemma_join_cons(Seq::empty(), sp);
            assert(join_labels(split_labels(s)) =~= s);
        } else {
            lemma_join_cons(seq![s[0]] + sp[0], sp.drop_first());
            if sp.drop_first().len() == 0 {
                assert(join_labels(split_labels(s)) == seq![s[0]] + sp[0]);
                assert(join_labels(sp) == sp[0]);
                assert(join_labels(split_labels(s)) =~= s);
            } else {
                assert(join_labels(split_labels(s)) == (seq![s[0]] + sp[0]) + seq![SEPARATOR]
                    + join_labels(sp.drop_first()));
                assert(join_labels(sp) == sp[0] + seq![SEPARATOR] + join_labels(sp.drop_first()));
                assert(join_labels(split_labels(s)) =~= seq![s[0]] + join_labels(sp));
                assert(join_labels(split_labels(s)) =~= s);
            }
        }
    }
}

/// Decoding the uncompressed wire form of valid labels, laid down at `pos`,
/// recovers exactly those labels and consumes exactly the wire bytes.
pub proof fn lemma_decode_wire(data: Seq<u8>, start: int, pos: int, labels: Seq<Seq<u8>>)
    requires
        valid_labels(labels),
        0 <= start <= pos,
        pos + wire_name(labels).len() <= data.len(),
        data.subrange(pos, pos + wire_name(labels).len() as int) == wire_name(labels),
    ensures
        name_at(data, start, pos) == Ok::<(Seq<Seq<u8>>, int), DnsError>(
            (labels, pos + wire_name(labels).len()),
        ),
    decreases labels.len(),
{
    let w = wire_name(labels);
    if labels.len() == 0 {
        assert(w =~= seq![0u8]);
        assert(data[pos] == data.subrange(pos, pos + 1)[0]);
        assert(data[pos] == 0);
        assert(labels =~= Seq::<Seq<u8>>::empty());
    } else {
        let l0 = labels[0];
        let rest = labels.drop_first();
        let wr = wire_name(rest);
        let ll = l0.len() as int;
        assert(valid_label(l0));
        assert(w =~= seq![l0.len() as u8] + l0 + wr) by {
            assert(wire_labels(labels) == seq![l0.len() as u8] + l0 + wire_labels(rest));
            assert(w =~= seq![l0.len() as u8] + l0 + (wire_labels(rest) + seq![0u8]));
        }
        assert(data[pos] == data.subrange(pos, pos + w.len() as int)[0]);
        assert(data[pos] == l0.len() as u8);
        let b = data[pos];
        assert(b & 0xC0 != 0xC0 && b != 0) by (bit_vector)
            requires
                1 <= b <= 63,
        ;
        assert(data.subrange(pos + 1, pos + 1 + ll) =~= l0) by {
            assert forall|i: int| 0 <= i < ll implies data[pos + 1 + i] == l0[i] by {
                assert(data[pos + 1 + i] == data.subrange(pos, pos + w.len() as int)[1 + i]);
            }
        }
        let pos2 = pos + 1 + ll;
        assert(data.subrange(pos2, pos2 + wr.len() as int) =~= wr) by {
            assert forall|i: int| 0 <= i < wr.len() implies data[pos2 + i] == wr[i] by {
                assert(data[pos2 + i] == data.subrange(pos, pos + w.len() as int)[1 + ll + i]);
            }
        }
        assert(valid_labels(rest)) by {
            assert forall|i: int| 0 <= i < rest.len() implies valid_label(#[trigger] rest[i]) by {
                assert(rest[i] == labels[i + 1]);
            }
        }
        lemma_decode_wire(data, start, pos2, rest);
        assert(seq![l0] + rest =~= labels);
    }
}

/// Round trip: the full decoder applied to the encoder's output recovers the
/// domain, for any domain of valid labels whose encoding fits in 255 bytes.
pub proof fn lemma_name_round_trip(d: Seq<u8>)
    requires
        valid_domain(d),
    ensures
        ({
            let labels = split_labels(d);
            let w = wire_name(labels);
            name_at(w, 0, 0) == Ok::<(Seq<Seq<u8>>, int), DnsError>((labels, w.len() as int))
                && join_labels(labels) == d
        }),
{
    let labels = split_labels(d);
    let w = wire_name(labels);
    assert(w.subrange(0, w.len() as int) =~= w);
    lemma_decode_wire(w, 0, 0, labels);
    lemma_join_split(d);
}

/// A name that is a bare compression pointer decodes to exactly what stands
/// at the pointer's target, when the target is strictly earlier.
pub proof fn lemma_pointer_matches_target(data: Seq<u8>, p: int)
    requires
        0 <= p,
        p + 2 <= data.len(),
        is_pointer_byte(data[p]),
        pointer_target(data, p) < p,
    ensures
        ({
            let t = pointer_target(data, p);
            match name_at(data, t, t) {
                Ok(le) => name_at(data, p, p) == Ok::<(Seq<Seq<u8>>, int), DnsError>((le.0, p + 2)),
                Err(e) => name_at(data, p, p) == Err::<(Seq<Seq<u8>>, int), DnsError>(e),
            }
        }),
{
    let b = data[p];
    assert(b & 0xC0 == 0xC0 ==> b != 0) by (bit_vector);
}

/// A pointer whose target offset is its own position or later is rejected as
/// InvalidPointer: no cycle can begin.
pub proof fn lemma_pointer_cycle_rejected(data: Seq<u8>, p: int)
    requires
        0 <= p,
        p + 2 <= data.len(),
        is_pointer_byte(data[p]),
        pointer_target(data, p) >= p,
    ensures
        name_at(data, p, p) == Err::<(Seq<Seq<u8>>, int), DnsError>(DnsError::InvalidPointer),
{
    let b = data[p];
    assert(b & 0xC0 == 0xC0 ==> b != 0) by (bit_vector);
}


/// No byte of `data` has both top bits set: nothing in it can be read as a
/// compression pointer, wherever a decode looks.
pub open spec fn pointer_free(data: Seq<u8>) -> bool {
    forall|j: int| 0 <= j < data.len() ==> (#[trigger] data[j]) & 0xC0 != 0xC0
}

/// In pointer-free data the full decoder can fail only by running out of
/// bytes: InvalidPointer never arises.
pub proof fn lemma_name_at_pointer_free_err(data: Seq<u8>, start: int, pos: int)
    requires
        0 <= start <= pos,
        pointer_free(data),
    ensures
        name_at(data, start, pos) is Err ==> name_at(data, start, pos) == Err::<
            (Seq<Seq<u8>>, int),
            DnsError,
        >(DnsError::BufferUnderrun),
    decreases start, data.len() - pos,
{
    if pos < data.len() {
        let len = data[pos];
        if len != 0 && !is_pointer_byte(len) && pos + 1 + (len as int) <= data.len() {
            lemma_name_at_pointer_free_err(data, start, pos + 1 + (len as int));
        }
    }
}

} // verus!



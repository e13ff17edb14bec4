use vstd::prelude::*;

use crate::err::DnsError;

verus! {

/// The byte contents of a `bytes::Bytes` value, as a mathematical sequence.
pub uninterp spec fn bytes_model(b: bytes::Bytes) -> Seq<u8>;

#[verifier::external_type_specification]
#[verifier::external_body]
pub struct ExBytes(bytes::Bytes);

/// Relies on `<bytes::Bytes as From<Vec<u8>>>::from`: the resulting `Bytes`
/// holds exactly the bytes of the vector.
#[verifier::external_body]
pub(crate) fn bytes_from_vec(v: Vec<u8>) -> (b: bytes::Bytes)
    ensures
        bytes_model(b) == v@,
{
    bytes::Bytes::from(v)
}

/// Relies on `bytes::Bytes::len`: the number of bytes held.
#[verifier::external_body]
pub(crate) fn bytes_len(b: &bytes::Bytes) -> (n: usize)
    ensures
        n == bytes_model(*b).len(),
{
    b.len()
}

/// Relies on `<[u8]>::get` reached through `Bytes`'s `Deref` to `[u8]`:
/// `Some` of the byte at `i` when `i` is in bounds, `None` otherwise.
#[verifier::external_body]
pub(crate) fn bytes_get(b: &bytes::Bytes, i: usize) -> (r: Option<u8>)
    ensures
        i < bytes_model(*b).len() ==> r == Some(bytes_model(*b)[i as int]),
        i >= bytes_model(*b).len() ==> r is None,
{
    b.get(i).copied()
}

/// Relies on `bytes::Bytes::slice`: the bytes of `b` from `start` (inclusive)
/// to `end` (exclusive). `slice` panics out of that range, so the bounds are
/// required here.
#[verifier::external_body]
pub(crate) fn bytes_slice(b: &bytes::Bytes, start: usize, end: usize) -> (r: bytes::Bytes)
    requires
        start <= end,
        end <= bytes_model(*b).len(),
    ensures
        bytes_model(r) == bytes_model(*b).subrange(start as int, end as int),
{
    b.slice(start..end)
}

/// Relies on `<[u8]>::to_vec` reached through `Bytes`'s `Deref` to `[u8]`:
/// an owned copy of the bytes held.
#[verifier::external_body]
pub(crate) fn bytes_to_vec(b: &bytes::Bytes) -> (v: Vec<u8>)
    ensures
        v@ == bytes_model(*b),
{
    b.to_vec()
}

/// Big-endian 16-bit value formed by the two bytes of `data` at `i`.
pub open spec fn be16(data: Seq<u8>, i: int) -> u16 {
    ((data[i] as int) * 0x100 + (data[i + 1] as int)) as u16
}

/// Big-endian 32-bit value formed by the four bytes of `data` at `i`.
pub open spec fn be32(data: Seq<u8>, i: int) -> u32 {
    ((data[i] as int) * 0x1000000 + (data[i + 1] as int) * 0x10000 + (data[i + 2] as int) * 0x100
        + (data[i + 3] as int)) as u32
}

/// An immutable byte sequence together with a cursor: the read position of an
/// in-progress decode. Every primitive read advances the cursor and never
/// changes the bytes; a read that would pass the end fails without moving the
/// cursor.
pub struct Buffer {
    pub(crate) data: bytes::Bytes,
    pub(crate) pos: usize,
}

impl Buffer {
    /// The bytes this buffer reads from.
    pub open(crate) spec fn bytes(&self) -> Seq<u8> {
        bytes_model(self.data)
    }

    /// The current read position.
    pub open(crate) spec fn cursor(&self) -> int {
        self.pos as int
    }

    /// The cursor never passes the end of the bytes.
    pub open spec fn wf(&self) -> bool {
        0 <= self.cursor() <= self.bytes().len()
    }

    pub fn new(data: Vec<u8>) -> (b: Buffer)
        ensures
            b.bytes() == data@,
            b.cursor() == 0,
            b.wf(),
    {
        Buffer { data: bytes_from_vec(data), pos: 0 }
    }

    /// Read the byte at the cursor and advance by one.
    pub fn next_byte(&mut self) -> (r: Result<u8, DnsError>)
        ensures
            final(self).bytes() == old(self).bytes(),
            old(self).wf() ==> final(self).wf(),
            match r {
                Ok(x) => old(self).cursor() < old(self).bytes().len() && x == old(self).bytes()[old(
                    self,
                ).cursor()] && final(self).cursor() == old(self).cursor() + 1,
                Err(e) => e == DnsError::BufferUnderrun && old(self).cursor() >= old(
                    self,
                ).bytes().len() && final(self).cursor() == old(self).cursor(),
            },
    {
        let n = bytes_len(&self.data);
        if self.pos < n {
            let x = bytes_get(&self.data, self.pos).unwrap();
            self.pos = self.pos + 1;
            Ok(x)
        } else {
            Err(DnsError::BufferUnderrun)
        }
    }

    /// Read one byte as an unsigned label length. What the value means
    /// (terminator, plain label, or compression pointer) is the caller's
    /// concern.
    pub fn read_label_length(&mut self) -> (r: Result<u8, DnsError>)
        ensures
            final(self).bytes() == old(self).bytes(),
            old(self).wf() ==> final(self).wf(),
            match r {
                Ok(x) => old(self).cursor() < old(self).bytes().len() && x == old(self).bytes()[old(
                    self,
                ).cursor()] && final(self).cursor() == old(self).cursor() + 1,
                Err(e) => e == DnsError::BufferUnderrun && old(self).cursor() >= old(
                    self,
                ).bytes().len() && final(self).cursor() == old(self).cursor(),
            },
    {
        self.next_byte()
    }

    /// Read a big-endian 16-bit value and advance by two.
    pub fn read_u16(&mut self) -> (r: Result<u16, DnsError>)
        ensures
            final(self).bytes() == old(self).bytes(),
            old(self).wf() ==> final(self).wf(),
            match r {
                Ok(x) => old(self).cursor() + 2 <= old(self).bytes().len() && x == be16(
                    old(self).bytes(),
                    old(self).cursor(),
                ) && final(self).cursor() == old(self).cursor() + 2,
                Err(e) => e == DnsError::BufferUnderrun && old(self).cursor() + 2 > old(
                    self,
                ).bytes().len() && final(self).cursor() == old(self).cursor(),
            },
    {
        let n = bytes_len(&self.data);
        if self.pos <= n && n - self.pos >= 2 {
            let hi = bytes_get(&self.data, self.pos).unwrap();
            let lo = bytes_get(&self.data, self.pos + 1).unwrap();
            self.pos = self.pos + 2;
            Ok((hi as u16) * 0x100 + (lo as u16))
        } else {
            Err(DnsError::BufferUnderrun)
        }
    }

    /// Read a big-endian 32-bit value and advance by four.
    pub fn read_u32(&mut self) -> (r: Result<u32, DnsError>)
        ensures
            final(self).bytes() == old(self).bytes(),
            old(self).wf() ==> final(self).wf(),
            match r {
                Ok(x) => old(self).cursor() + 4 <= old(self).bytes().len() && x == be32(
                    old(self).bytes(),
                    old(self).cursor(),
                ) && final(self).cursor() == old(self).cursor() + 4,
                Err(e) => e == DnsError::BufferUnderrun && old(self).cursor() + 4 > old(
                    self,
                ).bytes().len() && final(self).cursor() == old(self).cursor(),
            },
    {
        let n = bytes_len(&self.data);
        if self.pos <= n && n - self.pos >= 4 {
            let b0 = bytes_get(&self.data, self.pos).unwrap();
            let b1 = bytes_get(&self.data, self.pos + 1).unwrap();
            let b2 = bytes_get(&self.data, self.pos + 2).unwrap();
            let b3 = bytes_get(&self.data, self.pos + 3).unwrap();
            self.pos = self.pos + 4;
            Ok(
                (b0 as u32) * 0x1000000 + (b1 as u32) * 0x10000 + (b2 as u32) * 0x100 + (
                b3 as u32),
            )
        } else {
            Err(DnsError::BufferUnderrun)
        }
    }

    /// Read the next `count` bytes as an owned copy and advance by `count`.
    pub fn take(&mut self, count: usize) -> (r: Result<Vec<u8>, DnsError>)
        ensures
            final(self).bytes() == old(self).bytes(),
            old(self).wf() ==> final(self).wf(),
            match r {
                Ok(v) => old(self).cursor() + count <= old(self).bytes().len() && v@ == old(
                    self,
                ).bytes().subrange(old(self).cursor(), old(self).cursor() + count) && final(self).cursor()
                    == old(self).cursor() + count,
                Err(e) => e == DnsError::BufferUnderrun && old(self).cursor() + count > old(
                    self,
                ).bytes().len() && final(self).cursor() == old(self).cursor(),
            },
    {
        let n = bytes_len(&self.data);
        if self.pos <= n && n - self.pos >= count {
            let out = bytes_to_vec(&bytes_slice(&self.data, self.pos, self.pos + count));
            self.pos = self.pos + count;
            Ok(out)
        } else {
            Err(DnsError::BufferUnderrun)
        }
    }
}

} // verus!

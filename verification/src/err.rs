use vstd::prelude::*;

verus! {

/// The ways an encode or decode operation can fail.
#[derive(Clone, Copy, Debug, PartialEq, Eq, Structural)]
pub enum DnsError {
    /// A primitive read needed more bytes than remain in the buffer.
    BufferUnderrun,
    /// A compression pointer targets an offset that is out of bounds or not
    /// strictly earlier than the start of the name being decoded.
    InvalidPointer,
    /// On the encode path: an empty label, a label longer than 63 bytes, or a
    /// name whose total encoded length would exceed 255 bytes.
    InvalidLabel,
}

} // verus!

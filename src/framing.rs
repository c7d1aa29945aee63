//! Length-prefixed framing: each message on the wire is preceded by its
//! byte length as a 4-byte big-endian unsigned integer.
use byteorder::{BigEndian, ByteOrder};
use vstd::prelude::*;

verus! {

/// Number of bytes in a frame header.
pub const HEADER_LEN: usize = 4;

/// The unsigned integer that four bytes spell in big-endian order.
pub open spec fn be_u32_value(b: Seq<u8>) -> int
    recommends
        b.len() >= 4,
{
    b[0] as int * 16777216 + b[1] as int * 65536 + b[2] as int * 256 + b[3] as int
}

/// Relies on byteorder's `BigEndian::read_u32`: reads the first four bytes as a
/// big-endian integer (it panics on fewer than four).
#[verifier::external_body]
fn read_be_u32(b: &[u8]) -> (r: u32)
    requires
        b@.len() >= 4,
    ensures
        r as int == be_u32_value(b@),
{
    BigEndian::read_u32(b)
}

/// Relies on byteorder's `BigEndian::write_u32`: writes `n` into four bytes in
/// big-endian order.
#[verifier::external_body]
fn write_be_u32(n: u32) -> (r: Vec<u8>)
    ensures
        r@.len() == 4,
        be_u32_value(r@) == n as int,
{
    let mut buf = vec![0u8; 4];
    BigEndian::write_u32(&mut buf, n);
    buf
}

/// The length that a complete frame header announces.
pub fn header_body_len(header: &[u8]) -> (r: u32)
    requires
        header@.len() >= HEADER_LEN,
    ensures
        r as int == be_u32_value(header@),
{
    read_be_u32(header)
}

/// Frames a message body: `None` exactly when its length does not fit the
/// 4-byte prefix; otherwise the prefix followed by the body.
pub fn frame(body: &Vec<u8>) -> (r: Option<Vec<u8>>)
    ensures
        body@.len() > u32::MAX <==> r is None,
        r matches Some(w) ==> {
            &&& w@.len() == HEADER_LEN + body@.len()
            &&& be_u32_value(w@) == body@.len()
            &&& w@.subrange(HEADER_LEN as int, w@.len() as int) == body@
        },
{
    if body.len() > u32::MAX as usize {
        return None;
    }
    let mut out = write_be_u32(body.len() as u32);
    let ghost head = out@;
    let mut i: usize = 0;
    while i < body.len()
        invariant
            i <= body@.len(),
            head.len() == HEADER_LEN,
            be_u32_value(head) == body@.len(),
            out@ == head + body@.subrange(0, i as int),
        decreases body@.len() - i,
    {
        out.push(body[i]);
        i += 1;
        assert(out@ =~= head + body@.subrange(0, i as int));
    }
    assert(out@.subrange(HEADER_LEN as int, out@.len() as int) =~= body@);
    Some(out)
}

/// What the front of a byte stream holds.
pub enum FrameSplit {
    /// Fewer bytes than the header announces (or than a header): a receiver
    /// that sees the stream end here closes the connection.
    Incomplete,
    /// One whole frame: its body and the number of bytes it took.
    Complete { body: Vec<u8>, consumed: usize },
}

/// Cuts the first frame off a byte stream.
pub fn split_frame(wire: &[u8]) -> (r: FrameSplit)
    ensures
        wire@.len() < HEADER_LEN ==> r is Incomplete,
        wire@.len() >= HEADER_LEN ==> {
            let n = be_u32_value(wire@);
            &&& (wire@.len() < HEADER_LEN + n <==> r is Incomplete)
            &&& r matches FrameSplit::Complete { body, consumed } ==> {
                &&& consumed == HEADER_LEN + n
                &&& body@ == wire@.subrange(HEADER_LEN as int, HEADER_LEN + n)
            }
        },
{
    if wire.len() < HEADER_LEN {
        return FrameSplit::Incomplete;
    }
    let n = header_body_len(wire) as usize;
    if wire.len() - HEADER_LEN < n {
        return FrameSplit::Incomplete;
    }
    let body = copy_range(wire, HEADER_LEN, HEADER_LEN + n);
    FrameSplit::Complete { body, consumed: HEADER_LEN + n }
}

/// The bytes of `b` from `lo` up to `hi`, as a vector of their own.
pub fn copy_range(b: &[u8], lo: usize, hi: usize) -> (r: Vec<u8>)
    requires
        lo <= hi <= b@.len(),
    ensures
        r@ == b@.subrange(lo as int, hi as int),
{
    let mut out: Vec<u8> = Vec::new();
    let mut i: usize = lo;
    while i < hi
        invariant
            lo <= i <= hi,
            hi <= b@.len(),
            out@ == b@.subrange(lo as int, i as int),
        decreases hi - i,
    {
        out.push(b[i]);
        i += 1;
        assert(out@ =~= b@.subrange(lo as int, i as int));
    }
    out
}

} // verus!

use vstd::prelude::*;

verus! {

/// The aircraft model a player flies.
#[derive(Debug, Clone, Copy, PartialEq, Eq, Structural)]
pub enum PlaneType {
    Light,
    Jet,
}

impl Default for PlaneType {
    fn default() -> (r: Self)
        ensures
            r == PlaneType::Light,
    {
        PlaneType::Light
    }
}

/// Largest message body, in bytes, that a peer accepts.
pub const MAX_MESSAGE_SIZE: usize = 4096;

/// Why a frame header was refused.
#[derive(Debug, Clone, Copy, PartialEq, Eq, Structural)]
pub enum FrameError {
    /// The announced body is longer than `MAX_MESSAGE_SIZE`.
    TooLarge,
}

/// The value of four bytes read as a little-endian unsigned integer.
pub open spec fn le_value(b: [u8; 4]) -> int {
    b[0] + 256 * b[1] + 65536 * b[2] + 16777216 * b[3]
}

/// The four little-endian bytes of `n`.
pub open spec fn le_bytes(n: int) -> Seq<u8> {
    seq![(n % 256) as u8, ((n / 256) % 256) as u8, ((n / 65536) % 256) as u8, ((n / 16777216) % 256) as u8]
}

/// Length of the message body that a frame header announces: the header is
/// the body's length as a little-endian `u32`, and a length above
/// `MAX_MESSAGE_SIZE` is refused.
pub fn frame_body_len(header: [u8; 4]) -> (r: Result<usize, FrameError>)
    ensures
        le_value(header) <= MAX_MESSAGE_SIZE ==> r == Ok::<usize, FrameError>(le_value(header) as usize),
        le_value(header) > MAX_MESSAGE_SIZE ==> r == Err::<usize, FrameError>(FrameError::TooLarge),
{
    let len: u32 = header[0] as u32 + 256 * (header[1] as u32) + 65536 * (header[2] as u32) + 16777216 * (header[3] as u32);
    if len as usize > MAX_MESSAGE_SIZE {
        Err(FrameError::TooLarge)
    } else {
        Ok(len as usize)
    }
}

/// A frame carrying `body`: its length as a little-endian `u32`, then the
/// body itself.
pub fn encode_frame(body: &Vec<u8>) -> (r: Vec<u8>)
    requires
        body@.len() <= u32::MAX,
    ensures
        r@ == le_bytes(body@.len() as int) + body@,
{
    let n = body.len() as u32;
    let mut r: Vec<u8> = Vec::new();
    r.push((n % 256) as u8);
    r.push(((n / 256) % 256) as u8);
    r.push(((n / 65536) % 256) as u8);
    r.push(((n / 16777216) % 256) as u8);
    let mut i: usize = 0;
    while i < body.len()
        invariant
            n == body@.len(),
            i <= body@.len(),
            r@ == le_bytes(n as int) + body@.subrange(0, i as int),
        decreases body@.len() - i,
    {
        r.push(body[i]);
        i += 1;
        assert(r@ =~= le_bytes(n as int) + body@.subrange(0, i as int));
    }
    assert(body@.subrange(0, i as int) =~= body@);
    r
}

/// A header written for a body of `len` bytes reads back as `len`.
pub proof fn frame_header_round_trip(len: int)
    requires
        0 <= len <= u32::MAX,
    ensures
        le_value([le_bytes(len)[0], le_bytes(len)[1], le_bytes(len)[2], le_bytes(len)[3]]) == len,
{
    let b = [le_bytes(len)[0], le_bytes(len)[1], le_bytes(len)[2], le_bytes(len)[3]];
    assert(b[0] == len % 256);
    assert(b[1] == (len / 256) % 256);
    assert(b[2] == (len / 65536) % 256);
    assert(b[3] == (len / 16777216) % 256);
    assert(le_value(b) == len) by (nonlinear_arith)
        requires
            0 <= len <= u32::MAX,
            b[0] == len % 256,
            b[1] == (len / 256) % 256,
            b[2] == (len / 65536) % 256,
            b[3] == (len / 16777216) % 256,
            le_value(b) == b[0] + 256 * b[1] + 65536 * b[2] + 16777216 * b[3],
    ;
}

} // verus!

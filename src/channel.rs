//! Framing of the command channel: each message is followed by one zero byte, and a channel
//! holds at most a bounded number of buffered bytes.
use vstd::prelude::*;

verus! {

/// The bytes sent for one message.
pub fn frame_message(payload: &[u8]) -> (r: Vec<u8>)
    ensures
        r@ == payload@.push(0u8),
{
    let mut r: Vec<u8> = Vec::new();
    let mut i: usize = 0;
    while i < payload.len()
        invariant
            i <= payload@.len(),
            r@ == payload@.subrange(0, i as int),
        decreases payload@.len() - i,
    {
        r.push(payload[i]);
        i = i + 1;
        assert(r@ =~= payload@.subrange(0, i as int));
    }
    r.push(0u8);
    assert(r@ =~= payload@.push(0u8));
    r
}

/// Where the first complete message of `buf` ends: the index of the first zero byte.
pub fn frame_end(buf: &[u8]) -> (r: Option<usize>)
    ensures
        match r {
            Some(i) => i < buf@.len() && buf@[i as int] == 0 && forall|j: int| 0 <= j < i ==> buf@[j] != 0,
            None => forall|j: int| 0 <= j < buf@.len() ==> buf@[j] != 0,
        },
{
    let mut i: usize = 0;
    while i < buf.len()
        invariant
            i <= buf@.len(),
            forall|j: int| 0 <= j < i ==> buf@[j] != 0,
        decreases buf@.len() - i,
    {
        if buf[i] == 0 {
            return Some(i);
        }
        i = i + 1;
    }
    None
}

/// Whether `incoming` more bytes fit in a channel buffer that holds `buffered` of at most `max`.
/// A channel that would hold more breaks the protocol and is closed.
pub fn fits_in_buffer(buffered: usize, incoming: usize, max: usize) -> (r: bool)
    ensures
        r == (buffered + incoming <= max),
{
    buffered <= max && incoming <= max - buffered
}

} // verus!

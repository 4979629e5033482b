//! Length-prefixed frames: a four-byte big-endian length, then that many payload bytes.
use vstd::prelude::*;
use crate::bytes::{copy_range, be32, be32_at, push_u32_be, read_u32_be, lemma_be32_roundtrip};

verus! {

/// The largest payload a frame may carry: 16 MiB.
pub const MAX_PAYLOAD_SIZE: usize = 16777216;

/// What kind of failure a frame operation met.
#[derive(Clone, Copy, Debug, PartialEq, Eq, Structural)]
pub enum FrameErrorKind {
    /// The input ended before the frame did.
    UnexpectedEof,
    /// A length header announced more than the maximum payload.
    InvalidData,
    /// A payload to be written is larger than the maximum.
    InvalidInput,
}

/// A failed frame operation.
#[derive(Debug)]
pub struct FrameError {
    pub kind: FrameErrorKind,
    pub message: String,
}

/// Bytes read front to back.
pub struct Cursor {
    data: Vec<u8>,
    pos: usize,
}

impl Cursor {
    /// The bytes not read yet.
    pub closed spec fn remaining(&self) -> Seq<u8> {
        self.data@.subrange(self.pos as int, self.data@.len() as int)
    }

    /// The read position lies within the bytes.
    pub closed spec fn wf(&self) -> bool {
        self.pos <= self.data@.len()
    }

    /// A cursor at the start of a copy of `data`.
    pub fn new(data: &[u8]) -> (c: Cursor)
        ensures
            c.wf(),
            c.remaining() == data@,
            c.consumed() == 0,
    {
        let c = Cursor { data: copy_range(data, 0, data.len()), pos: 0 };
        proof { assert(c.data@.subrange(0, c.data@.len() as int) =~= data@); }
        c
    }

    /// How many bytes have been read.
    pub closed spec fn consumed(&self) -> nat {
        self.pos as nat
    }

    /// How many bytes have been read.
    pub fn position(&self) -> (r: usize)
        ensures
            r == self.consumed(),
    {
        self.pos
    }
}

/// The frame that carries `payload`.
pub open spec fn frame_of(payload: Seq<u8>) -> Seq<u8> {
    be32(payload.len() as u32) + payload
}

/// Appends the frame that carries `payload` to `out`. A payload larger than
/// `MAX_PAYLOAD_SIZE` is refused and nothing is written.
pub fn write_frame(out: &mut Vec<u8>, payload: &[u8]) -> (r: Result<(), FrameError>)
    ensures
        payload@.len() > MAX_PAYLOAD_SIZE <==> (r matches Err(e) && e.kind == FrameErrorKind::InvalidInput),
        payload@.len() <= MAX_PAYLOAD_SIZE <==> r is Ok,
        r is Err ==> final(out)@ == old(out)@,
        r is Ok ==> final(out)@ == old(out)@ + frame_of(payload@),
{
    if payload.len() > MAX_PAYLOAD_SIZE {
        return Err(FrameError {
            kind: FrameErrorKind::InvalidInput,
            message: "payload size exceeds maximum".to_owned(),
        });
    }
    let len = payload.len() as u32;
    push_u32_be(out, len);
    let ghost mid = out@;
    let mut i: usize = 0;
    while i < payload.len()
        invariant
            0 <= i <= payload@.len(),
            out@ == mid + payload@.subrange(0, i as int),
        decreases payload@.len() - i,
    {
        out.push(payload[i]);
        i = i + 1;
        proof { assert(out@ =~= mid + payload@.subrange(0, i as int)); }
    }
    proof { assert(payload@.subrange(0, payload@.len() as int) =~= payload@); }
    Ok(())
}

/// Reads one frame. Fails with `UnexpectedEof` when fewer than four bytes, or fewer than the
/// announced length after them, remain; fails with `InvalidData` when the length exceeds
/// `MAX_PAYLOAD_SIZE`. On success the cursor moves past the frame.
pub fn read_frame(c: &mut Cursor) -> (r: Result<Vec<u8>, FrameError>)
    requires
        old(c).wf(),
    ensures
        final(c).wf(),
        ({
            let rem = old(c).remaining();
            &&& rem.len() < 4 ==> (r matches Err(e) && e.kind == FrameErrorKind::UnexpectedEof)
            &&& rem.len() >= 4 && be32_at(rem, 0) > MAX_PAYLOAD_SIZE ==> (r matches Err(e) && e.kind == FrameErrorKind::InvalidData)
            &&& rem.len() >= 4 && be32_at(rem, 0) <= MAX_PAYLOAD_SIZE && rem.len() < 4 + be32_at(rem, 0)
                ==> (r matches Err(e) && e.kind == FrameErrorKind::UnexpectedEof)
            &&& rem.len() >= 4 && be32_at(rem, 0) <= MAX_PAYLOAD_SIZE && rem.len() >= 4 + be32_at(rem, 0) ==> (r matches Ok(p)
                && p@ == rem.subrange(4, 4 + be32_at(rem, 0))
                && final(c).remaining() == rem.subrange(4 + be32_at(rem, 0), rem.len() as int)
                && final(c).consumed() == old(c).consumed() + 4 + be32_at(rem, 0))
        }),
{
    let ghost rem = c.remaining();
    if c.data.len() - c.pos < 4 {
        return Err(FrameError { kind: FrameErrorKind::UnexpectedEof, message: "failed to fill whole buffer".to_owned() });
    }
    let len = read_u32_be(c.data.as_slice(), c.pos);
    proof {
        assert(c.data@[c.pos as int] == rem[0]);
        assert(c.data@[c.pos + 1] == rem[1]);
        assert(c.data@[c.pos + 2] == rem[2]);
        assert(c.data@[c.pos + 3] == rem[3]);
    }
    if len as usize > MAX_PAYLOAD_SIZE {
        return Err(FrameError { kind: FrameErrorKind::InvalidData, message: "frame size exceeds maximum".to_owned() });
    }
    let n = len as usize;
    if c.data.len() - c.pos - 4 < n {
        return Err(FrameError { kind: FrameErrorKind::UnexpectedEof, message: "failed to fill whole buffer".to_owned() });
    }
    let start = c.pos + 4;
    let payload = copy_range(c.data.as_slice(), start, start + n);
    c.pos = start + n;
    proof {
        assert(payload@ =~= rem.subrange(4, 4 + n));
        assert(c.remaining() =~= rem.subrange(4 + n, rem.len() as int));
    }
    Ok(payload)
}

/// A frame written by `write_frame` is read back by `read_frame`: the length header gives the
/// payload's length, the payload follows it, and whatever came after the frame is left.
pub proof fn lemma_frame_roundtrip(payload: Seq<u8>, rest: Seq<u8>)
    requires
        payload.len() <= MAX_PAYLOAD_SIZE,
    ensures
        ({
            let s = frame_of(payload) + rest;
            &&& s.len() >= 4
            &&& be32_at(s, 0) == payload.len()
            &&& s.len() >= 4 + be32_at(s, 0)
            &&& s.subrange(4, 4 + payload.len() as int) == payload
            &&& s.subrange(4 + payload.len() as int, s.len() as int) == rest
        }),
{
    let s = frame_of(payload) + rest;
    let n = payload.len() as u32;
    lemma_be32_roundtrip(n);
    assert(s[0] == be32(n)[0] && s[1] == be32(n)[1] && s[2] == be32(n)[2] && s[3] == be32(n)[3]);
    assert(s.subrange(4, 4 + payload.len() as int) =~= payload);
    assert(s.subrange(4 + payload.len() as int, s.len() as int) =~= rest);
}

} // verus!

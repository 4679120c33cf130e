//! The CTMP wire format and the incremental, resynchronizing frame parser.
//!
//! A frame on the wire is an 8-byte header followed by its payload:
//! magic `0xCC`, a zero byte, the payload length as a big-endian `u16`,
//! four zero bytes, then the payload itself.
use vstd::prelude::*;
use std::collections::VecDeque;

use crate::buffer::{room, MessageMgr};
use crate::ctmp::Ctmp;

verus! {

/// Magic byte that opens every header.
pub const CTMP_MAGIC: u8 = 0xCC;

/// Size of the fixed header in bytes.
pub const HEADER_LEN: usize = 8;

/// How the bytes at the head of the stream read as a header.
#[derive(Clone, Copy, PartialEq, Eq, Debug)]
pub enum HeaderType {
    /// Fewer than 8 bytes, all consistent with a header so far.
    Partial,
    /// Bytes that no header can start with.
    Invalid,
    /// A whole, valid header declaring this payload length.
    Complete(u16),
}

/// The reserved bytes at positions 4 to 7 that are present are zero.
pub open spec fn reserved_clear(b: Seq<u8>) -> bool {
    forall|i: int| 4 <= i < 8 && i < b.len() ==> b[i] == 0
}

/// The payload length written at positions 2 and 3, big-endian.
pub open spec fn declared_len(b: Seq<u8>) -> u16 {
    (b[2] as int * 256 + b[3] as int) as u16
}

/// Classification of the head of the stream `b`.
pub open spec fn header_spec(b: Seq<u8>) -> HeaderType {
    if b.len() == 0 {
        HeaderType::Partial
    } else if b[0] != CTMP_MAGIC {
        HeaderType::Invalid
    } else if b.len() >= 2 && b[1] != 0 {
        HeaderType::Invalid
    } else if !reserved_clear(b) {
        HeaderType::Invalid
    } else if b.len() < HEADER_LEN {
        HeaderType::Partial
    } else {
        HeaderType::Complete(declared_len(b))
    }
}

/// One parse pass over the buffered bytes `b`: the payloads of the frames it
/// extracts, in stream order, and the bytes left buffered for the next pass.
/// Invalid heads are skipped one byte at a time; the pass stops at a partial
/// header or at a frame whose payload is not all there yet.
pub open spec fn parse_spec(b: Seq<u8>) -> (Seq<Seq<u8>>, Seq<u8>)
    decreases b.len(),
{
    if b.len() == 0 {
        (seq![], b)
    } else {
        match header_spec(b) {
            HeaderType::Partial => (seq![], b),
            HeaderType::Invalid => parse_spec(b.drop_first()),
            HeaderType::Complete(n) => {
                let end = HEADER_LEN as int + n as int;
                if b.len() < end {
                    (seq![], b)
                } else {
                    let rest = parse_spec(b.subrange(end, b.len() as int));
                    (seq![b.subrange(HEADER_LEN as int, end)] + rest.0, rest.1)
                }
            },
        }
    }
}

/// The payloads of a sequence of frames.
pub open spec fn payloads(frames: Seq<Ctmp>) -> Seq<Seq<u8>> {
    frames.map_values(|f: Ctmp| f@)
}

/// What a parse pass leaves buffered parses to no frame and stays as it is:
/// a second pass right after a first one, on an emptied buffer among others,
/// finds nothing and changes nothing.
pub proof fn lemma_parse_idempotent(b: Seq<u8>)
    ensures
        parse_spec(parse_spec(b).1).0.len() == 0,
        parse_spec(parse_spec(b).1).1 == parse_spec(b).1,
        parse_spec(Seq::<u8>::empty()) == (Seq::<Seq<u8>>::empty(), Seq::<u8>::empty()),
    decreases b.len(),
{
    if b.len() > 0 {
        match header_spec(b) {
            HeaderType::Invalid => lemma_parse_idempotent(b.drop_first()),
            HeaderType::Complete(n) => {
                let end = HEADER_LEN as int + n as int;
                if b.len() >= end {
                    lemma_parse_idempotent(b.subrange(end, b.len() as int));
                }
            },
            HeaderType::Partial => {},
        }
    }
}

/// A head that already reads as invalid, or as a whole header, reads the
/// same whatever bytes arrive after it.
proof fn lemma_header_extends(b: Seq<u8>, c: Seq<u8>)
    requires
        b.len() > 0,
        header_spec(b) != HeaderType::Partial,
    ensures
        header_spec(b + c) == header_spec(b),
{
    let bc = b + c;
    assert(bc[0] == b[0]);
    if b.len() >= 2 {
        assert(bc[1] == b[1]);
    }
    if !reserved_clear(b) {
        let i = choose|i: int| 4 <= i < 8 && i < b.len() && b[i] != 0;
        assert(bc[i] == b[i]);
    } else if b.len() >= HEADER_LEN {
        assert forall|i: int| 4 <= i < 8 && i < bc.len() implies bc[i] == 0 by {
            assert(bc[i] == b[i]);
        }
        assert(bc[2] == b[2] && bc[3] == b[3]);
    }
}

/// Bytes may arrive in any split: parsing the whole stream gives the frames
/// of a pass over the first part, followed by those of a pass over what that
/// pass left buffered with the second part appended. No byte is lost or read
/// twice across partial reads.
pub proof fn lemma_parse_split(b1: Seq<u8>, b2: Seq<u8>)
    ensures
        parse_spec(b1 + b2).0 == parse_spec(b1).0 + parse_spec(parse_spec(b1).1 + b2).0,
        parse_spec(b1 + b2).1 == parse_spec(parse_spec(b1).1 + b2).1,
    decreases b1.len(),
{
    let r1 = parse_spec(b1);
    if b1.len() == 0 {
        assert(b1 + b2 =~= b2);
        assert(r1.0 + parse_spec(b2).0 =~= parse_spec(b2).0);
    } else {
        match header_spec(b1) {
            HeaderType::Partial => {
                assert(r1.0 + parse_spec(b1 + b2).0 =~= parse_spec(b1 + b2).0);
            },
            HeaderType::Invalid => {
                lemma_header_extends(b1, b2);
                lemma_parse_split(b1.drop_first(), b2);
                assert((b1 + b2).drop_first() =~= b1.drop_first() + b2);
            },
            HeaderType::Complete(n) => {
                let end = HEADER_LEN as int + n as int;
                if b1.len() < end {
                    assert(r1.0 + parse_spec(b1 + b2).0 =~= parse_spec(b1 + b2).0);
                } else {
                    lemma_header_extends(b1, b2);
                    let t1 = b1.subrange(end, b1.len() as int);
                    lemma_parse_split(t1, b2);
                    assert((b1 + b2).subrange(end, (b1 + b2).len() as int) =~= t1 + b2);
                    assert((b1 + b2).subrange(HEADER_LEN as int, end) =~= b1.subrange(
                        HEADER_LEN as int,
                        end,
                    ));
                    let rt = parse_spec(t1);
                    assert(seq![b1.subrange(HEADER_LEN as int, end)] + (rt.0 + parse_spec(rt.1
                        + b2).0) =~= (seq![b1.subrange(HEADER_LEN as int, end)] + rt.0)
                        + parse_spec(rt.1 + b2).0);
                }
            },
        }
    }
}

/// Classifies the head of `buf` as a CTMP header.
pub fn parse_ctmp_header(buf: &VecDeque<u8>) -> (r: HeaderType)
    ensures
        r == header_spec(buf@),
{
    let len = buf.len();
    if len == 0 {
        return HeaderType::Partial;
    }
    if buf[0] != CTMP_MAGIC {
        return HeaderType::Invalid;
    }
    if len >= 2 && buf[1] != 0 {
        return HeaderType::Invalid;
    }
    let mut i: usize = 4;
    while i < len && i < HEADER_LEN
        invariant
            4 <= i <= HEADER_LEN,
            len == buf@.len(),
            forall|j: int| 4 <= j < i && j < len ==> buf@[j] == 0,
        decreases HEADER_LEN - i,
    {
        if buf[i] != 0 {
            return HeaderType::Invalid;
        }
        i += 1;
    }
    if len < HEADER_LEN {
        HeaderType::Partial
    } else {
        HeaderType::Complete((buf[2] as u16) * 256 + buf[3] as u16)
    }
}

/// The byte accumulator of one client connection: bytes are appended at the
/// tail as they arrive and frames are cut from the head.
pub struct CtmpParser {
    tcp_buf: VecDeque<u8>,
}

impl View for CtmpParser {
    type V = Seq<u8>;

    /// The buffered bytes, oldest first.
    closed spec fn view(&self) -> Seq<u8> {
        self.tcp_buf@
    }
}

impl CtmpParser {
    /// An accumulator with nothing buffered.
    pub fn new() -> (r: CtmpParser)
        ensures
            r@ == Seq::<u8>::empty(),
    {
        CtmpParser { tcp_buf: VecDeque::new() }
    }

    /// Number of bytes buffered.
    pub fn buffered(&self) -> (r: usize)
        ensures
            r == self@.len(),
    {
        self.tcp_buf.len()
    }

    /// Appends bytes read from the stream at the tail.
    pub fn push_bytes(&mut self, data: &[u8])
        ensures
            final(self)@ == old(self)@ + data@,
    {
        let mut i: usize = 0;
        while i < data.len()
            invariant
                i <= data@.len(),
                self@ == old(self)@ + data@.take(i as int),
            decreases data@.len() - i,
        {
            self.tcp_buf.push_back(data[i]);
            i += 1;
            assert(self@ =~= old(self)@ + data@.take(i as int));
        }
        assert(data@.take(data@.len() as int) =~= data@);
    }

    /// Removes `k` bytes from the head.
    fn drop_front(&mut self, k: usize)
        requires
            k <= old(self)@.len(),
        ensures
            final(self)@ == old(self)@.subrange(k as int, old(self)@.len() as int),
    {
        let mut i: usize = 0;
        while i < k
            invariant
                i <= k <= old(self)@.len(),
                self@ == old(self)@.subrange(i as int, old(self)@.len() as int),
            decreases k - i,
        {
            self.tcp_buf.pop_front();
            i += 1;
            assert(self@ =~= old(self)@.subrange(i as int, old(self)@.len() as int));
        }
    }

    /// Copies the bytes at positions `start .. start + n` of the buffer.
    fn copy_range(&self, start: usize, n: usize) -> (r: Vec<u8>)
        requires
            start + n <= self@.len(),
        ensures
            r@ == self@.subrange(start as int, start + n),
    {
        let total = self.tcp_buf.len();
        let mut out: Vec<u8> = Vec::with_capacity(n);
        let mut i: usize = 0;
        while i < n
            invariant
                i <= n,
                total == self@.len(),
                start + n <= self@.len(),
                out@ == self@.subrange(start as int, start + i),
            decreases n - i,
        {
            out.push(self.tcp_buf[start + i]);
            i += 1;
            assert(out@ =~= self@.subrange(start as int, start + i));
        }
        out
    }

    /// Runs one parse pass: extracts every complete frame at the head of the
    /// buffer, skipping invalid bytes, and stops at a partial header or an
    /// incomplete payload, whose bytes stay buffered.
    pub fn parse_all(&mut self) -> (r: Vec<Ctmp>)
        ensures
            payloads(r@) == parse_spec(old(self)@).0,
            final(self)@ == parse_spec(old(self)@).1,
            forall|i: int| 0 <= i < r@.len() ==> (#[trigger] r@[i]).wf(),
    {
        let mut out: Vec<Ctmp> = Vec::new();
        loop
            invariant
                parse_spec(old(self)@).0 == payloads(out@) + parse_spec(self@).0,
                parse_spec(old(self)@).1 == parse_spec(self@).1,
                forall|i: int| 0 <= i < out@.len() ==> (#[trigger] out@[i]).wf(),
            ensures
                parse_spec(old(self)@).0 == payloads(out@),
                parse_spec(old(self)@).1 == self@,
                forall|i: int| 0 <= i < out@.len() ==> (#[trigger] out@[i]).wf(),
            decreases self@.len(),
        {
            let ghost before = self@;
            if self.tcp_buf.len() == 0 {
                assert(payloads(out@) + seq![] =~= payloads(out@));
                break;
            }
            match parse_ctmp_header(&self.tcp_buf) {
                HeaderType::Partial => {
                    assert(payloads(out@) + seq![] =~= payloads(out@));
                    break;
                },
                HeaderType::Invalid => {
                    self.drop_front(1);
                    assert(self@ =~= before.drop_first());
                },
                HeaderType::Complete(n) => {
                    let end: usize = HEADER_LEN + n as usize;
                    if self.tcp_buf.len() < end {
                        assert(payloads(out@) + seq![] =~= payloads(out@));
                        break;
                    }
                    let payload = self.copy_range(HEADER_LEN, n as usize);
                    let frame = Ctmp::new(n, payload.as_slice());
                    assert(payload@.take(n as int) =~= payload@);
                    let ghost out_before = out@;
                    out.push(frame);
                    self.drop_front(end);
                    assert(payloads(out@) =~= payloads(out_before).push(frame@));
                    assert(payloads(out@) + parse_spec(self@).0 =~= payloads(out_before) + (
                    seq![frame@] + parse_spec(self@).0));
                },
            }
        }
        out
    }

    /// Takes bytes read from the stream: appends them, runs one parse pass,
    /// and offers the frames found, in order, to `mgr`. Frames that find
    /// `mgr` full are dropped, and their number is returned.
    pub fn feed(&mut self, data: &[u8], mgr: &mut MessageMgr) -> (r: usize)
        requires
            old(mgr).wf(),
        ensures
            final(mgr).wf(),
            ({
                let found = parse_spec(old(self)@ + data@).0;
                let kept = if found.len() < room(old(mgr)@) {
                    found.len() as int
                } else {
                    room(old(mgr)@)
                };
                &&& final(self)@ == parse_spec(old(self)@ + data@).1
                &&& payloads(final(mgr)@) == payloads(old(mgr)@) + found.take(kept)
                &&& r == found.len() - kept
            }),
    {
        proof {
            old(mgr).lemma_bounded();
        }
        self.push_bytes(data);
        let mut frames = self.parse_all();
        let ghost fs = frames@;
        let ghost q = mgr@;
        let mut dropped: usize = 0;
        let mut j: usize = 0;
        while j < frames.len()
            invariant
                frames@.len() == fs.len(),
                j <= fs.len(),
                q.len() <= crate::buffer::CAPACITY - 1,
                mgr.wf(),
                forall|i: int| j <= i < fs.len() ==> frames@[i] == fs[i],
                forall|i: int| 0 <= i < fs.len() ==> (#[trigger] fs[i]).wf(),
                mgr@ == q + fs.take(
                    if (j as int) < room(q) {
                        j as int
                    } else {
                        room(q)
                    },
                ),
                dropped == j - (if (j as int) < room(q) {
                    j as int
                } else {
                    room(q)
                }),
            decreases fs.len() - j,
        {
            let mut frame = Ctmp::default();
            frames.set_and_swap(j, &mut frame);
            assert(frame == fs[j as int]);
            match mgr.write(frame) {
                Ok(()) => {
                    assert(mgr@ =~= q + fs.take(j + 1));
                },
                Err(_) => {
                    dropped += 1;
                },
            }
            j += 1;
        }
        proof {
            let kept = if fs.len() < room(q) {
                fs.len() as int
            } else {
                room(q)
            };
            assert(payloads(q + fs.take(kept)) =~= payloads(q) + payloads(fs).take(kept));
        }
        dropped
    }
}

} // verus!

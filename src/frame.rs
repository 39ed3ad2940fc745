//! Framing of messages on a byte stream: each payload travels behind a
//! four-byte little-endian length, and a decoder rebuilds the payloads from
//! whatever pieces the stream delivers, keeping what is not complete yet.

use vstd::prelude::*;

verus! {

/// Bytes of the length that goes before each payload.
pub const HEADER_LEN: usize = 4;

/// Capacity of a frame on a client's control connection.
pub const TCP_BUFFER_SIZE: usize = 1024;

/// Capacity of a frame in one broadcast datagram.
pub const UDP_BUFFER_SIZE: usize = 65507;

/// The length that four little-endian bytes hold.
pub open spec fn le_u32(b: Seq<u8>) -> nat {
    (b[0] + 256 * b[1] + 65536 * b[2] + 16777216 * b[3]) as nat
}

/// `n` as four little-endian bytes.
pub open spec fn u32_le(n: nat) -> Seq<u8> {
    seq![(n % 256) as u8, ((n / 256) % 256) as u8, ((n / 65536) % 256) as u8, ((n / 16777216) % 256) as u8]
}

/// A payload behind its length.
pub open spec fn frame_of(p: Seq<u8>) -> Seq<u8> {
    u32_le(p.len()) + p
}

/// Payloads framed one after another.
pub open spec fn frames_of(ps: Seq<Seq<u8>>) -> Seq<u8>
    decreases ps.len(),
{
    if ps.len() == 0 {
        Seq::empty()
    } else {
        frame_of(ps[0]) + frames_of(ps.subrange(1, ps.len() as int))
    }
}

/// Chunks joined in order.
pub open spec fn joined(chunks: Seq<Seq<u8>>) -> Seq<u8>
    decreases chunks.len(),
{
    if chunks.len() == 0 {
        Seq::empty()
    } else {
        chunks[0] + joined(chunks.subrange(1, chunks.len() as int))
    }
}

/// What decoding `bytes` with frames of at most `cap` bytes gives: the
/// complete payloads in order, the bytes left over (an incomplete frame),
/// and whether a length over `cap` was met (the left-over bytes then start
/// with it).
pub open spec fn parse(bytes: Seq<u8>, cap: nat) -> (Seq<Seq<u8>>, Seq<u8>, bool)
    decreases bytes.len(),
{
    if bytes.len() < HEADER_LEN {
        (Seq::empty(), bytes, false)
    } else {
        let n = le_u32(bytes.subrange(0, 4));
        if n > cap {
            (Seq::empty(), bytes, true)
        } else if bytes.len() < HEADER_LEN + n {
            (Seq::empty(), bytes, false)
        } else {
            let r = parse(bytes.subrange(HEADER_LEN + n, bytes.len() as int), cap);
            (seq![bytes.subrange(4, HEADER_LEN + n)] + r.0, r.1, r.2)
        }
    }
}

/// What a decoder holding `pending` gives when fed `chunks` in order: the
/// payloads, what it holds at the end, and whether it failed (it stops at
/// the first failure).
pub open spec fn feed(pending: Seq<u8>, chunks: Seq<Seq<u8>>, cap: nat) -> (Seq<Seq<u8>>, Seq<u8>, bool)
    decreases chunks.len(),
{
    if chunks.len() == 0 {
        (Seq::empty(), pending, false)
    } else {
        let p = parse(pending + chunks[0], cap);
        if p.2 {
            p
        } else {
            let r = feed(p.1, chunks.subrange(1, chunks.len() as int), cap);
            (p.0 + r.0, r.1, r.2)
        }
    }
}

proof fn lemma_le_round_trip(n: nat)
    requires
        n <= u32::MAX,
    ensures
        le_u32(u32_le(n)) == n,
        u32_le(n).len() == HEADER_LEN,
{
}

/// Parsing a frame then more bytes gives the frame's payload first.
proof fn lemma_parse_frame(p: Seq<u8>, tail: Seq<u8>, cap: nat)
    requires
        p.len() <= cap,
        p.len() <= u32::MAX,
    ensures
        parse(frame_of(p) + tail, cap) == {
            let r = parse(tail, cap);
            (seq![p] + r.0, r.1, r.2)
        },
{
    let b = frame_of(p) + tail;
    lemma_le_round_trip(p.len());
    assert(b.subrange(0, 4) =~= u32_le(p.len()));
    assert(b.subrange(4, 4 + p.len() as int) =~= p);
    assert(b.subrange(4 + p.len() as int, b.len() as int) =~= tail);
}

/// Framed payloads decode to themselves.
proof fn lemma_parse_frames(ps: Seq<Seq<u8>>, cap: nat)
    requires
        forall|k: int| 0 <= k < ps.len() ==> (#[trigger] ps[k]).len() <= cap && ps[k].len() <= u32::MAX,
    ensures
        parse(frames_of(ps), cap) == (ps, Seq::<u8>::empty(), false),
    decreases ps.len(),
{
    if ps.len() > 0 {
        let rest = ps.subrange(1, ps.len() as int);
        lemma_parse_frames(rest, cap);
        lemma_parse_frame(ps[0], frames_of(rest), cap);
        assert(seq![ps[0]] + rest =~= ps);
    }
}

/// Parsing is incremental: parsing `a + b` gives what parsing `a` gives,
/// followed by what parsing its left-over bytes and `b` gives; and a failure
/// on `a` is a failure on `a + b`.
proof fn lemma_parse_append(a: Seq<u8>, b: Seq<u8>, cap: nat)
    ensures
        ({
            let pa = parse(a, cap);
            let pr = parse(pa.1 + b, cap);
            !pa.2 ==> parse(a + b, cap) == (pa.0 + pr.0, pr.1, pr.2)
        }),
        parse(a, cap).2 ==> parse(a + b, cap).2,
    decreases a.len(),
{
    let ab = a + b;
    if a.len() < HEADER_LEN {
        assert(parse(a, cap).0 + parse(a + b, cap).0 =~= parse(a + b, cap).0);
    } else {
        assert(ab.subrange(0, 4) =~= a.subrange(0, 4));
        let n = le_u32(a.subrange(0, 4));
        if n > cap {
        } else if a.len() < HEADER_LEN + n {
            assert(parse(a, cap).0 + parse(a + b, cap).0 =~= parse(a + b, cap).0);
        } else {
            let a2 = a.subrange(HEADER_LEN + n, a.len() as int);
            assert(ab.subrange(HEADER_LEN + n, ab.len() as int) =~= a2 + b);
            assert(ab.subrange(4, HEADER_LEN + n) =~= a.subrange(4, HEADER_LEN + n));
            lemma_parse_append(a2, b, cap);
            let pa2 = parse(a2, cap);
            let pr = parse(pa2.1 + b, cap);
            assert(seq![a.subrange(4, HEADER_LEN + n)] + pa2.0 + pr.0 =~= seq![a.subrange(4, HEADER_LEN + n)] + (
            pa2.0 + pr.0));
        }
    }
}

/// Bytes that hold no complete frame.
pub open spec fn settled(bytes: Seq<u8>, cap: nat) -> bool {
    parse(bytes, cap) == (Seq::<Seq<u8>>::empty(), bytes, false)
}

/// What parsing leaves over holds no complete frame.
proof fn lemma_left_over_settled(bytes: Seq<u8>, cap: nat)
    ensures
        !parse(bytes, cap).2 ==> settled(parse(bytes, cap).1, cap),
    decreases bytes.len(),
{
    if bytes.len() >= HEADER_LEN {
        let n = le_u32(bytes.subrange(0, 4));
        if n <= cap && bytes.len() >= HEADER_LEN + n {
            lemma_left_over_settled(bytes.subrange(HEADER_LEN + n, bytes.len() as int), cap);
        }
    }
}

/// Feeding chunks one by one to a decoder holding no complete frame decodes
/// what their joined bytes decode to, whenever that meets no oversized
/// length.
proof fn lemma_feed_joined(pending: Seq<u8>, chunks: Seq<Seq<u8>>, cap: nat)
    requires
        settled(pending, cap),
        !parse(pending + joined(chunks), cap).2,
    ensures
        feed(pending, chunks, cap) == parse(pending + joined(chunks), cap),
    decreases chunks.len(),
{
    if chunks.len() == 0 {
        assert(pending + joined(chunks) =~= pending);
    } else {
        let c = chunks[0];
        let rest = chunks.subrange(1, chunks.len() as int);
        assert(pending + joined(chunks) =~= (pending + c) + joined(rest));
        lemma_parse_append(pending + c, joined(rest), cap);
        let p = parse(pending + c, cap);
        lemma_left_over_settled(pending + c, cap);
        lemma_feed_joined(p.1, rest, cap);
    }
}

/// Round trip: however the framed bytes of `payloads` are cut into
/// `chunks`, a fresh decoder fed the chunks in order gives back exactly
/// `payloads`, in order, and holds nothing afterwards.
pub proof fn lemma_round_trip(payloads: Seq<Seq<u8>>, chunks: Seq<Seq<u8>>, cap: nat)
    requires
        forall|k: int|
            0 <= k < payloads.len() ==> (#[trigger] payloads[k]).len() <= cap && payloads[k].len() <= u32::MAX,
        joined(chunks) == frames_of(payloads),
    ensures
        feed(Seq::empty(), chunks, cap) == (payloads, Seq::<u8>::empty(), false),
{
    lemma_parse_frames(payloads, cap);
    assert(Seq::<u8>::empty() + joined(chunks) =~= frames_of(payloads));
    lemma_feed_joined(Seq::empty(), chunks, cap);
}

/// Why a decoder gave up on its connection.
#[derive(Clone, Copy, PartialEq, Eq, Debug, Structural)]
pub enum FrameError {
    /// A frame announced more bytes than the decoder's capacity.
    Oversized,
}

/// Frames `payload`: its length in four little-endian bytes, then the
/// payload itself.
pub fn encode_frame(payload: &[u8]) -> (r: Vec<u8>)
    requires
        payload@.len() <= u32::MAX,
    ensures
        r@ == frame_of(payload@),
{
    let n: u64 = payload.len() as u64;
    let mut r: Vec<u8> = Vec::new();
    r.push((n % 256) as u8);
    r.push((n / 256 % 256) as u8);
    r.push((n / 65536 % 256) as u8);
    r.push((n / 16777216 % 256) as u8);
    let mut i: usize = 0;
    while i < payload.len()
        invariant
            i <= payload@.len(),
            n == payload@.len(),
            r@ == u32_le(n as nat) + payload@.subrange(0, i as int),
        decreases payload@.len() - i,
    {
        r.push(payload[i]);
        i = i + 1;
        assert(r@ =~= u32_le(n as nat) + payload@.subrange(0, i as int));
    }
    assert(payload@.subrange(0, i as int) =~= payload@);
    r
}

/// The bytes of `v` from `from` up to `to`.
fn copy_range(v: &Vec<u8>, from: usize, to: usize) -> (r: Vec<u8>)
    requires
        from <= to <= v@.len(),
    ensures
        r@ == v@.subrange(from as int, to as int),
{
    let mut r: Vec<u8> = Vec::new();
    let mut i: usize = from;
    while i < to
        invariant
            from <= i <= to,
            to <= v@.len(),
            r@ == v@.subrange(from as int, i as int),
        decreases to - i,
    {
        r.push(v[i]);
        i = i + 1;
        assert(r@ =~= v@.subrange(from as int, i as int));
    }
    r
}

/// Rebuilds payloads from the pieces a byte stream delivers, holding an
/// incomplete frame until the rest of it arrives.
pub struct FrameDecoder {
    buf: Vec<u8>,
    capacity: usize,
}

impl FrameDecoder {
    /// The bytes received and not yet decoded.
    pub closed spec fn pending(&self) -> Seq<u8> {
        self.buf@
    }

    /// The largest payload accepted.
    pub closed spec fn cap(&self) -> nat {
        self.capacity as nat
    }

    /// A decoder for payloads of at most `capacity` bytes, holding nothing.
    pub fn new(capacity: usize) -> (d: FrameDecoder)
        ensures
            d.pending() == Seq::<u8>::empty(),
            d.cap() == capacity,
    {
        FrameDecoder { buf: Vec::new(), capacity }
    }

    /// Takes the next piece of the stream and returns the payloads it
    /// completes, in order; the bytes of an incomplete frame are kept for
    /// the next piece. A frame announcing more than the capacity is an
    /// error, after which the connection is to be dropped.
    pub fn push(&mut self, chunk: &[u8]) -> (r: Result<Vec<Vec<u8>>, FrameError>)
        ensures
            final(self).cap() == old(self).cap(),
            ({
                let p = parse(old(self).pending() + chunk@, old(self).cap());
                &&& final(self).pending() == p.1
                &&& (r is Err <==> p.2)
                &&& r matches Ok(v) ==> v@.map_values(|f: Vec<u8>| f@) == p.0
            }),
    {
        let ghost cap = self.capacity as nat;
        let mut i: usize = 0;
        while i < chunk.len()
            invariant
                i <= chunk@.len(),
                self.capacity == old(self).capacity,
                self.buf@ == old(self).buf@ + chunk@.subrange(0, i as int),
            decreases chunk@.len() - i,
        {
            self.buf.push(chunk[i]);
            i = i + 1;
            assert(self.buf@ =~= old(self).buf@ + chunk@.subrange(0, i as int));
        }
        assert(chunk@.subrange(0, i as int) =~= chunk@);
        let ghost all = self.buf@;
        let mut frames: Vec<Vec<u8>> = Vec::new();
        let mut pos: usize = 0;
        assert(all.subrange(0, all.len() as int) =~= all);
        assert(frames@.map_values(|f: Vec<u8>| f@) + parse(all, cap).0 =~= parse(all, cap).0);
        loop
            invariant
                self.capacity == old(self).capacity,
                cap == self.capacity,
                self.buf@ == all,
                all == old(self).buf@ + chunk@,
                pos <= all.len(),
                parse(all, cap) == {
                    let t = parse(all.subrange(pos as int, all.len() as int), cap);
                    (frames@.map_values(|f: Vec<u8>| f@) + t.0, t.1, t.2)
                },
            ensures
                self.capacity == old(self).capacity,
                self.buf@ == all,
                pos <= all.len(),
                parse(all, cap) == {
                    let t = parse(all.subrange(pos as int, all.len() as int), cap);
                    (frames@.map_values(|f: Vec<u8>| f@) + t.0, t.1, t.2)
                },
                parse(all.subrange(pos as int, all.len() as int), cap) == (
                    Seq::<Seq<u8>>::empty(),
                    all.subrange(pos as int, all.len() as int),
                    false,
                ),
            decreases all.len() - pos,
        {
            let ghost t = all.subrange(pos as int, all.len() as int);
            if self.buf.len() - pos < HEADER_LEN {
                assert(parse(t, cap) == (Seq::<Seq<u8>>::empty(), t, false));
                break;
            }
            let n: u64 = self.buf[pos] as u64 + self.buf[pos + 1] as u64 * 256 + self.buf[pos + 2] as u64 * 65536
                + self.buf[pos + 3] as u64 * 16777216;
            assert(t.subrange(0, 4) =~= all.subrange(pos as int, pos + 4));
            assert(n == le_u32(t.subrange(0, 4)));
            if n > self.capacity as u64 {
                assert(parse(t, cap) == (Seq::<Seq<u8>>::empty(), t, true));
                let rest = copy_range(&self.buf, pos, self.buf.len());
                self.buf = rest;
                return Err(FrameError::Oversized);
            }
            let len = n as usize;
            if self.buf.len() - pos - HEADER_LEN < len {
                assert(parse(t, cap) == (Seq::<Seq<u8>>::empty(), t, false));
                break;
            }
            let frame = copy_range(&self.buf, pos + HEADER_LEN, pos + HEADER_LEN + len);
            let ghost before = frames@.map_values(|f: Vec<u8>| f@);
            frames.push(frame);
            proof {
                assert(t.subrange(4, 4 + len as int) =~= frame@);
                let t2 = all.subrange((pos + HEADER_LEN + len) as int, all.len() as int);
                assert(t.subrange(HEADER_LEN + len as int, t.len() as int) =~= t2);
                let p2 = parse(t2, cap);
                assert(frames@.map_values(|f: Vec<u8>| f@) =~= before.push(frame@));
                assert(before + (seq![frame@] + p2.0) =~= before.push(frame@) + p2.0);
            }
            pos = pos + HEADER_LEN + len;
        }
        let rest = copy_range(&self.buf, pos, self.buf.len());
        self.buf = rest;
        proof {
            assert(frames@.map_values(|f: Vec<u8>| f@) + Seq::<Seq<u8>>::empty() =~= frames@.map_values(|f: Vec<u8>| f@));
        }
        Ok(frames)
    }
}

} // verus!

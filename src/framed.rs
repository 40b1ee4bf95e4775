//! Length-prefixed frames on top of a ring: each frame is a header carrying
//! the payload's length, then the payload, in one contiguous region.
use critical_section::CriticalSection;
use vstd::prelude::*;

use crate::book::{Book, GrantRange};
use crate::buffer::{lemma_read_region, lemma_ring_capacity, slice_range_mut, Ring, RingView};
use crate::grant::{GrantRead, GrantWrite};
use crate::vusize::{
    decode_usize, decoded_len, decoded_len_of, decoding, encode_usize_to_slice, encoded_len,
    encoding, fits_in, header_len, lemma_fits_smaller, lemma_round_trip, usize_bytes, usize_size,
};
use crate::Error;

verus! {

/// A frame: a header of `hdr_len` bytes carrying the payload's length, then
/// the payload.
pub open spec fn frame(hdr_len: nat, payload: Seq<u8>) -> Seq<u8> {
    encoding(payload.len() as usize, hdr_len) + payload
}

/// The header length and payload length of the frame at the start of `s`, if
/// a whole one is there.
pub open spec fn parse_frame(s: Seq<u8>) -> Option<(nat, nat)> {
    if s.len() >= 1 && decoded_len_of(s[0]) <= s.len() && decoded_len_of(s[0]) <= usize_bytes()
        + 1 && decoding(s) <= s.len() - decoded_len_of(s[0]) {
        Some((decoded_len_of(s[0]), decoding(s) as nat))
    } else {
        None
    }
}

/// The bytes of a sequence of frames, each with its header length.
pub open spec fn frame_stream(frames: Seq<(nat, Seq<u8>)>) -> Seq<u8>
    decreases frames.len(),
{
    if frames.len() == 0 {
        Seq::empty()
    } else {
        frame(frames[0].0, frames[0].1) + frame_stream(frames.drop_first())
    }
}

/// A frame whose header fits its payload's length parses back from the front
/// of any byte stream it starts: the same header, the same payload, and the
/// rest of the stream after it.
pub proof fn lemma_frame_round_trip(hdr_len: nat, payload: Seq<u8>, rest: Seq<u8>)
    requires
        payload.len() <= usize::MAX,
        fits_in(payload.len() as usize, hdr_len),
    ensures
        parse_frame(frame(hdr_len, payload) + rest) == Some((hdr_len, payload.len())),
        (frame(hdr_len, payload) + rest).subrange(hdr_len as int, (hdr_len + payload.len()) as int)
            == payload,
        (frame(hdr_len, payload) + rest).skip((hdr_len + payload.len()) as int) == rest,
{
    let len = payload.len() as usize;
    lemma_round_trip(len, hdr_len);
    let h = encoding(len, hdr_len);
    let s = frame(hdr_len, payload) + rest;
    assert(s.subrange(0, hdr_len as int) =~= h);
    assert(decoding(s) == decoding(h)) by {
        let n = decoded_len_of(s[0]);
        assert(s[0] == h[0]);
        assert(s.subrange(0, n as int) =~= h.subrange(0, n as int));
        assert(s.subrange(1, n as int) =~= h.subrange(1, n as int));
    }
    assert(s.subrange(hdr_len as int, (hdr_len + payload.len()) as int) =~= payload);
    assert(s.skip((hdr_len + payload.len()) as int) =~= rest);
}

/// Frames written one after another read back one at a time, in order, each
/// with its own payload.
pub proof fn lemma_frames_read_back(frames: Seq<(nat, Seq<u8>)>)
    requires
        forall|i: int|
            0 <= i < frames.len() ==> #[trigger] frames[i].1.len() <= usize::MAX && fits_in(
                frames[i].1.len() as usize,
                frames[i].0,
            ),
    ensures
        frames.len() > 0 ==> ({
            let s = frame_stream(frames);
            let (h, p) = frames[0];
            &&& parse_frame(s) == Some((h, p.len()))
            &&& s.subrange(h as int, (h + p.len()) as int) == p
            &&& s.skip((h + p.len()) as int) == frame_stream(frames.drop_first())
        }),
        frames.len() == 0 ==> frame_stream(frames).len() == 0,
{
    if frames.len() > 0 {
        let (h, p) = frames[0];
        assert(frames[0].1.len() <= usize::MAX && fits_in(frames[0].1.len() as usize, frames[0].0));
        lemma_frame_round_trip(h, p, frame_stream(frames.drop_first()));
    }
}


/// `s` is a whole number of frames.
pub open spec fn whole_frames(s: Seq<u8>) -> bool
    decreases s.len(),
{
    if s.len() == 0 {
        true
    } else if let Some((h, l)) = parse_frame(s) {
        whole_frames(s.skip((h + l) as int))
    } else {
        false
    }
}

/// Only the header and the length of `t` decide how the frame at its start
/// parses.
proof fn lemma_parse_same_header(s: Seq<u8>, t: Seq<u8>)
    requires
        parse_frame(s) is Some,
        t.len() >= (parse_frame(s)->0).0 + (parse_frame(s)->0).1,
        t.subrange(0, (parse_frame(s)->0).0 as int) == s.subrange(
            0,
            (parse_frame(s)->0).0 as int,
        ),
    ensures
        parse_frame(t) == parse_frame(s),
{
    let n = decoded_len_of(s[0]);
    assert forall|i: int| 0 <= i < n implies t[i] == s[i] by {
        assert(t.subrange(0, n as int)[i] == s.subrange(0, n as int)[i]);
    }
    assert(t.subrange(0, n as int) =~= s.subrange(0, n as int));
    assert(t.subrange(1, n as int) =~= s.subrange(1, n as int));
}

proof fn lemma_whole_frames_concat(a: Seq<u8>, b: Seq<u8>)
    requires
        whole_frames(a),
        whole_frames(b),
    ensures
        whole_frames(a + b),
    decreases a.len(),
{
    if a.len() == 0 {
        assert(a + b =~= b);
    } else {
        let (h, l) = parse_frame(a)->0;
        assert((a + b).subrange(0, h as int) =~= a.subrange(0, h as int));
        lemma_parse_same_header(a, a + b);
        lemma_whole_frames_concat(a.skip((h + l) as int), b);
        assert((a + b).skip((h + l) as int) =~= a.skip((h + l) as int) + b);
    }
}

proof fn lemma_frame_is_whole(hdr_len: nat, payload: Seq<u8>)
    requires
        payload.len() <= usize::MAX,
        fits_in(payload.len() as usize, hdr_len),
    ensures
        whole_frames(frame(hdr_len, payload)),
{
    lemma_frame_round_trip(hdr_len, payload, Seq::empty());
    let f = frame(hdr_len, payload);
    assert(f + Seq::<u8>::empty() =~= f);
    assert(f.len() > 0) by {
        lemma_round_trip(payload.len() as usize, hdr_len);
    }
    assert(whole_frames(f.skip((hdr_len + payload.len()) as int)));
}

/// The queued bytes `queued` of a ring with cursors `book` are whole frames,
/// and while inverted so are the ones in the high part: no frame is split
/// across the end of the storage.
pub open spec fn aligned_queue(book: Book, queued: Seq<u8>) -> bool {
    &&& whole_frames(queued)
    &&& book.inverted() ==> whole_frames(queued.take(book.last - book.read))
}

impl RingView {
    pub open spec fn frames_aligned(self) -> bool {
        aligned_queue(self.book, self.contents())
    }
}

/// A new ring is aligned, so frames written to it through frame grants are
/// never split across the end of the storage.
pub proof fn lemma_new_ring_aligned(v: RingView)
    requires
        v.book == crate::book::Book::new_spec(),
    ensures
        v.frames_aligned(),
{
    assert(v.contents().len() == 0);
}

/// In an aligned ring with something queued, the part readable in one piece
/// starts with a whole frame.
proof fn lemma_aligned_frame_ready(v: RingView)
    requires
        v.wf(),
        v.frames_aligned(),
        v.contents().len() > 0,
    ensures
        parse_frame(v.contents().take(v.book.after_acquire_read().contiguous_len() as int)) is Some,
        v.book.after_acquire_read().contiguous_len() <= v.contents().len(),
{
    let b = v.book;
    let c = v.contents();
    if b.read == b.last && b.write < b.read {
        assert(c =~= v.bytes.subrange(0, b.write as int));
        assert(c.take(c.len() as int) =~= c);
    } else if b.inverted() {
        assert(c.take((b.last - b.read) as int).len() > 0);
    } else {
        assert(c.take(c.len() as int) =~= c);
    }
}

/// Committing a whole number of frames keeps a ring aligned.
proof fn lemma_commit_keeps_aligned(a: RingView, b: RingView, g: GrantRange, f: Seq<u8>)
    requires
        a.wf(),
        a.frames_aligned(),
        a.write_grant_is(g),
        0 < f.len() <= g.len,
        whole_frames(f),
        b.book == a.book.after_commit_write(a.capacity(), f.len()),
        b.contents() == a.contents() + f,
    ensures
        b.frames_aligned(),
{
    lemma_whole_frames_concat(a.contents(), f);
    let k = a.book;
    if k.inverted() {
        assert(b.contents().take(k.last - k.read) =~= a.contents().take(k.last - k.read));
    } else if k.reserve < k.write {
        assert(b.book.last == k.write);
        assert(b.contents().take(k.write - k.read) =~= a.contents());
    }
}

/// Changing the payload of the oldest frame in place keeps a ring aligned.
proof fn lemma_payload_change_keeps_aligned(
    a: RingView,
    g: (GrantRange, nat),
    payload: Seq<u8>,
    queued: Seq<u8>,
)
    requires
        a.wf(),
        a.frames_aligned(),
        a.frame_read_is(g),
        payload.len() == g.0.len - g.1,
        queued == a.contents().take(g.1 as int) + payload + a.contents().skip(g.0.len as int),
    ensures
        aligned_queue(a.book, queued),
{
    lemma_read_region(a, g.0);
    let c = a.contents();
    let c2 = queued;
    let r = a.region(g.0);
    let total = g.0.len as int;
    assert(c.subrange(0, g.1 as int) =~= r.subrange(0, g.1 as int));
    lemma_parse_same_header(r, c);
    assert(c2.subrange(0, g.1 as int) =~= c.subrange(0, g.1 as int));
    lemma_parse_same_header(c, c2);
    assert(c2.skip(total) =~= c.skip(total));
    let k = a.book;
    if k.inverted() {
        let len = k.last - k.read;
        let high = c.take(len);
        let high2 = c2.take(len);
        assert(high.subrange(0, g.1 as int) =~= r.subrange(0, g.1 as int));
        lemma_parse_same_header(r, high);
        assert(high2.subrange(0, g.1 as int) =~= high.subrange(0, g.1 as int));
        lemma_parse_same_header(high, high2);
        assert(high2.skip(total) =~= high.skip(total));
    }
}

/// Consuming the oldest frame keeps a ring aligned.
proof fn lemma_consume_keeps_aligned(a: RingView, b: RingView, g: (GrantRange, nat))
    requires
        a.wf(),
        a.frames_aligned(),
        a.frame_read_is(g),
        b.book == a.book.after_commit_read(g.0.len as nat),
        b.contents() == a.contents().skip(g.0.len as int),
    ensures
        b.frames_aligned(),
{
    lemma_read_region(a, g.0);
    let c = a.contents();
    let r = a.region(g.0);
    let total = g.0.len as int;
    assert(c.subrange(0, g.1 as int) =~= r.subrange(0, g.1 as int));
    lemma_parse_same_header(r, c);
    let k = a.book;
    if b.book.inverted() {
        let high = c.take(k.last - k.read);
        assert(high.subrange(0, g.1 as int) =~= r.subrange(0, g.1 as int));
        lemma_parse_same_header(r, high);
        assert(b.contents().take(b.book.last - b.book.read) =~= high.skip(total));
    }
}

/// When an aligned ring holds a sequence of whole frames, the oldest one is
/// what `read_frame` parses: its header length, its payload length and its
/// payload.
pub proof fn lemma_ring_frame_read_back(v: RingView, frames: Seq<(nat, Seq<u8>)>)
    requires
        v.wf(),
        frames.len() > 0,
        forall|i: int|
            0 <= i < frames.len() ==> #[trigger] frames[i].1.len() <= usize::MAX && fits_in(
                frames[i].1.len() as usize,
                frames[i].0,
            ),
        v.contents() == frame_stream(frames),
        v.frames_aligned(),
    ensures
        ({
            let part = v.contents().take(v.book.after_acquire_read().contiguous_len() as int);
            &&& parse_frame(part) == Some((frames[0].0, frames[0].1.len()))
            &&& part.subrange(frames[0].0 as int, (frames[0].0 + frames[0].1.len()) as int)
                == frames[0].1
        }),
{
    let (h, p) = frames[0];
    lemma_frames_read_back(frames);
    let c = v.contents();
    let part = c.take(v.book.after_acquire_read().contiguous_len() as int);
    lemma_round_trip(p.len() as usize, h);
    lemma_aligned_frame_ready(v);
    let (h2, l2) = parse_frame(part)->0;
    assert(c.subrange(0, h2 as int) =~= part.subrange(0, h2 as int));
    lemma_parse_same_header(part, c);
    assert(part.subrange(h as int, (h + p.len()) as int) =~= c.subrange(
        h as int,
        (h + p.len()) as int,
    ));
}

/// A frame whose header can carry its payload's length.
pub open spec fn valid_frame(f: (nat, Seq<u8>)) -> bool {
    f.1.len() <= usize::MAX && fits_in(f.1.len() as usize, f.0)
}

/// What the producer or the consumer does to a stream of frames: write a
/// frame with a header of the given length, or read and consume the oldest.
pub enum FrameTransfer {
    Write(nat, Seq<u8>),
    Read,
}

pub open spec fn valid_transfer(t: FrameTransfer) -> bool {
    match t {
        FrameTransfer::Write(h, p) => valid_frame((h, p)),
        FrameTransfer::Read => true,
    }
}

/// The payloads a consumer gets from the bytes `s` through the transfers `ts`,
/// each read parsing the frame at the front and consuming it.
pub open spec fn payloads_read(s: Seq<u8>, ts: Seq<FrameTransfer>) -> Seq<Seq<u8>>
    decreases ts.len(),
{
    if ts.len() == 0 {
        Seq::empty()
    } else {
        match ts[0] {
            FrameTransfer::Write(h, p) => payloads_read(s + frame(h, p), ts.drop_first()),
            FrameTransfer::Read => match parse_frame(s) {
                Some((h, l)) => seq![s.subrange(h as int, (h + l) as int)] + payloads_read(
                    s.skip((h + l) as int),
                    ts.drop_first(),
                ),
                None => payloads_read(s, ts.drop_first()),
            },
        }
    }
}

/// The frames read through the transfers `ts` from the queue of frames `q`.
pub open spec fn frames_read(q: Seq<(nat, Seq<u8>)>, ts: Seq<FrameTransfer>) -> Seq<
    (nat, Seq<u8>),
>
    decreases ts.len(),
{
    if ts.len() == 0 {
        Seq::empty()
    } else {
        match ts[0] {
            FrameTransfer::Write(h, p) => frames_read(q.push((h, p)), ts.drop_first()),
            FrameTransfer::Read => if q.len() > 0 {
                seq![q[0]] + frames_read(q.drop_first(), ts.drop_first())
            } else {
                frames_read(q, ts.drop_first())
            },
        }
    }
}

/// The frames written through the transfers `ts`, in order.
pub open spec fn frames_written(ts: Seq<FrameTransfer>) -> Seq<(nat, Seq<u8>)>
    decreases ts.len(),
{
    if ts.len() == 0 {
        Seq::empty()
    } else {
        match ts[0] {
            FrameTransfer::Write(h, p) => seq![(h, p)] + frames_written(ts.drop_first()),
            FrameTransfer::Read => frames_written(ts.drop_first()),
        }
    }
}

proof fn lemma_frame_stream_push(q: Seq<(nat, Seq<u8>)>, f: (nat, Seq<u8>))
    ensures
        frame_stream(q.push(f)) == frame_stream(q) + frame(f.0, f.1),
    decreases q.len(),
{
    if q.len() == 0 {
        assert(q.push(f).drop_first() =~= Seq::<(nat, Seq<u8>)>::empty());
        assert(q.push(f)[0] == f);
        assert(frame_stream(Seq::<(nat, Seq<u8>)>::empty()) == Seq::<u8>::empty());
        assert(frame_stream(q.push(f)) =~= frame(f.0, f.1) + Seq::<u8>::empty());
        assert(frame_stream(q) =~= Seq::<u8>::empty());
        assert(frame(f.0, f.1) + Seq::<u8>::empty() =~= frame_stream(q) + frame(f.0, f.1));
    } else {
        assert(q.push(f).drop_first() =~= q.drop_first().push(f));
        lemma_frame_stream_push(q.drop_first(), f);
        assert(frame_stream(q.push(f)) =~= frame_stream(q) + frame(f.0, f.1));
    }
}

proof fn lemma_frames_read_fifo(q: Seq<(nat, Seq<u8>)>, ts: Seq<FrameTransfer>)
    ensures
        q.len() == 0 ==> frames_read(q, ts) == frames_written(ts).take(
            frames_read(q, ts).len() as int,
        ),
        frames_read(q, ts).len() <= q.len() + frames_written(ts).len(),
        frames_read(q, ts) == (q + frames_written(ts)).take(frames_read(q, ts).len() as int),
    decreases ts.len(),
{
    if ts.len() > 0 {
        let rest = ts.drop_first();
        match ts[0] {
            FrameTransfer::Write(h, p) => {
                lemma_frames_read_fifo(q.push((h, p)), rest);
                assert(q.push((h, p)) + frames_written(rest) =~= q + frames_written(ts));
            },
            FrameTransfer::Read => {
                if q.len() > 0 {
                    lemma_frames_read_fifo(q.drop_first(), rest);
                    let r = frames_read(q.drop_first(), rest);
                    assert(frames_read(q, ts) == seq![q[0]] + r);
                    assert(frames_read(q, ts) =~= (q + frames_written(ts)).take(
                        frames_read(q, ts).len() as int,
                    ));
                } else {
                    lemma_frames_read_fifo(q, rest);
                }
            },
        }
    }
    if q.len() == 0 {
        assert(q + frames_written(ts) =~= frames_written(ts));
    }
}

/// Frames written one after another and read back one at a time come out in
/// the order they went in, each with its own payload: starting from a stream
/// of whole frames `q`, the payloads read are those of the frames of `q`
/// followed by the frames written, in order; from an empty stream they are
/// the payloads of the first frames written.
pub proof fn lemma_frame_history(q: Seq<(nat, Seq<u8>)>, ts: Seq<FrameTransfer>)
    requires
        forall|i: int| 0 <= i < q.len() ==> valid_frame(#[trigger] q[i]),
        forall|i: int| 0 <= i < ts.len() ==> valid_transfer(#[trigger] ts[i]),
    ensures
        payloads_read(frame_stream(q), ts) == frames_read(q, ts).map_values(
            |f: (nat, Seq<u8>)| f.1,
        ),
        frames_read(q, ts) == (q + frames_written(ts)).take(frames_read(q, ts).len() as int),
        q.len() == 0 ==> payloads_read(Seq::empty(), ts) == frames_written(ts).take(
            frames_read(q, ts).len() as int,
        ).map_values(|f: (nat, Seq<u8>)| f.1),
    decreases ts.len(),
{
    lemma_frames_read_fifo(q, ts);
    if ts.len() > 0 {
        let rest = ts.drop_first();
        assert forall|i: int| 0 <= i < rest.len() implies valid_transfer(#[trigger] rest[i]) by {
            assert(rest[i] == ts[i + 1]);
        }
        assert(valid_transfer(ts[0]));
        match ts[0] {
            FrameTransfer::Write(h, p) => {
                let q2 = q.push((h, p));
                assert forall|i: int| 0 <= i < q2.len() implies valid_frame(#[trigger] q2[i]) by {
                    if i < q.len() {
                        assert(q2[i] == q[i]);
                    }
                }
                lemma_frame_stream_push(q, (h, p));
                lemma_frame_history(q2, rest);
            },
            FrameTransfer::Read => {
                if q.len() > 0 {
                    let q2 = q.drop_first();
                    assert forall|i: int| 0 <= i < q2.len() implies valid_frame(#[trigger] q2[i]) by {
                        assert(q2[i] == q[i + 1]);
                    }
                    assert forall|i: int| 0 <= i < q.len() implies #[trigger] q[i].1.len()
                        <= usize::MAX && fits_in(q[i].1.len() as usize, q[i].0) by {
                        assert(valid_frame(q[i]));
                    }
                    lemma_frames_read_back(q);
                    lemma_frame_history(q2, rest);
                    let r = frames_read(q2, rest);
                    assert(frames_read(q, ts).map_values(|f: (nat, Seq<u8>)| f.1) =~= seq![q[0].1]
                        + r.map_values(|f: (nat, Seq<u8>)| f.1));
                } else {
                    assert(frame_stream(q) =~= Seq::<u8>::empty());
                    lemma_frame_history(q, rest);
                }
            },
        }
    }
    if q.len() == 0 {
        assert(frame_stream(q) =~= Seq::<u8>::empty());
        assert(q + frames_written(ts) =~= frames_written(ts));
    }
}

/// A write grant whose first `hdr_len` bytes are kept for the header; the
/// rest is the payload region.
pub struct FrameGrantWrite {
    grant: GrantWrite,
    hdr_len: usize,
}

impl View for FrameGrantWrite {
    type V = (GrantRange, nat);

    closed spec fn view(&self) -> (GrantRange, nat) {
        (self.grant@, self.hdr_len as nat)
    }
}

impl RingView {
    /// `g` is an outstanding frame write grant.
    pub open spec fn frame_write_is(self, g: (GrantRange, nat)) -> bool {
        &&& self.write_grant_is(g.0)
        &&& g.1 <= g.0.len
        &&& fits_in((g.0.len - g.1) as usize, g.1)
    }

    /// `g` is an outstanding frame read grant.
    pub open spec fn frame_read_is(self, g: (GrantRange, nat)) -> bool {
        &&& self.read_grant_is(g.0)
        &&& g.1 <= g.0.len
        &&& parse_frame(self.region(g.0)) == Some((g.1, (g.0.len - g.1) as nat))
    }
}

impl FrameGrantWrite {
    /// The largest payload the frame can take.
    pub fn payload_len(&self) -> (r: usize)
        requires
            self@.1 <= self@.0.len,
        ensures
            r == self@.0.len - self@.1,
    {
        self.grant.len() - self.hdr_len
    }

    /// Writes the header for a payload of `used` bytes, cut to the payload
    /// region, and returns the length of the whole frame.
    fn set_header<const N: usize>(&self, ring: &mut Ring<N>, used: usize) -> (total: usize)
        requires
            old(ring)@.wf(),
            old(ring)@.frame_write_is(self@),
        ensures
            final(ring).waiter_registered() == old(ring).waiter_registered(),
            total == self@.1 + vstd::math::min(used as int, self@.0.len - self@.1),
            final(ring)@.wf(),
            final(ring)@.book == old(ring)@.book,
            final(ring)@.frame_write_is(self@),
            final(ring)@.contents() == old(ring)@.contents(),
            final(ring)@.region(self@.0) == encoding(
                (total - self@.1) as usize,
                self@.1,
            ) + old(ring)@.region(self@.0).skip(self@.1 as int),
    {
        let grant_len = self.grant.len();
        let hdr_len = self.hdr_len;
        let frame_len = if used < grant_len - hdr_len {
            used
        } else {
            grant_len - hdr_len
        };
        proof {
            lemma_fits_smaller(frame_len, (grant_len - hdr_len) as usize, hdr_len as nat);
        }
        let buf = self.grant.buf_mut(ring);
        encode_usize_to_slice(frame_len, hdr_len, buf);
        proof {
            assert(final(buf)@ =~= encoding(frame_len, hdr_len as nat) + old(ring)@.region(
                self@.0,
            ).skip(hdr_len as int));
        }
        frame_len + hdr_len
    }

    /// Commits a frame with the first `used` bytes of the payload region (all
    /// of it when `used` is larger) and wakes the waiting task.
    pub fn commit<const N: usize>(self, ring: &mut Ring<N>, cs: CriticalSection, used: usize)
        requires
            old(ring)@.wf(),
            old(ring)@.frame_write_is(self@),
        ensures
            !final(ring).waiter_registered(),
            final(ring)@.wf(),
            final(ring)@.book == old(ring)@.book.after_commit_write(
                N as nat,
                (self@.1 + vstd::math::min(used as int, self@.0.len - self@.1)) as nat,
            ),
            final(ring)@.contents() == old(ring)@.contents() + frame(
                self@.1,
                old(ring)@.region(self@.0).subrange(
                    self@.1 as int,
                    self@.1 + vstd::math::min(used as int, self@.0.len - self@.1),
                ),
            ),
            old(ring)@.frames_aligned() ==> final(ring)@.frames_aligned(),
    {
        let ghost before = ring@;
        let total = self.set_header(ring, used);
        let ghost mid = ring@;
        let ghost payload = before.region(self@.0).subrange(self@.1 as int, total as int);
        proof {
            assert(mid.region(self@.0).take(total as int) =~= frame(self@.1, payload));
            lemma_fits_smaller(payload.len() as usize, (self@.0.len - self@.1) as usize, self@.1);
            lemma_frame_is_whole(self@.1, payload);
            lemma_round_trip(payload.len() as usize, self@.1);
        }
        self.grant.commit(ring, cs, total);
        proof {
            lemma_ring_capacity(*ring);
            if before.frames_aligned() {
                lemma_commit_keeps_aligned(mid, ring@, self@.0, frame(self@.1, payload));
            }
        }
    }

    /// Gives the region back without writing a frame.
    pub fn release<const N: usize>(self, ring: &mut Ring<N>, cs: CriticalSection)
        requires
            old(ring)@.wf(),
            old(ring)@.frame_write_is(self@),
        ensures
            final(ring).waiter_registered() == old(ring).waiter_registered(),
            final(ring)@.wf(),
            final(ring)@.book == old(ring)@.book.after_release_write(),
            final(ring)@.contents() == old(ring)@.contents(),
            old(ring)@.frames_aligned() ==> final(ring)@.frames_aligned(),
    {
        self.grant.release(ring, cs);
    }

    /// The payload region, as it is now.
    pub fn buf<'r, const N: usize>(&self, ring: &'r Ring<N>) -> (r: &'r [u8])
        requires
            ring@.wf(),
            ring@.frame_write_is(self@),
        ensures
            r@ == ring@.region(self@.0).skip(self@.1 as int),
    {
        let all = self.grant.buf(ring);
        vstd::slice::slice_subrange(all, self.hdr_len, all.len())
    }

    /// The payload region, to be filled in place.
    pub fn buf_mut<'r, const N: usize>(&self, ring: &'r mut Ring<N>) -> (r: &'r mut [u8])
        requires
            old(ring)@.wf(),
            old(ring)@.frame_write_is(self@),
        ensures
            final(ring).waiter_registered() == old(ring).waiter_registered(),
            r@ == old(ring)@.region(self@.0).skip(self@.1 as int),
            final(r)@.len() == r@.len(),
            final(ring)@.wf(),
            final(ring)@.book == old(ring)@.book,
            final(ring)@.frame_write_is(self@),
            final(ring)@.region(self@.0) == old(ring)@.region(self@.0).take(self@.1 as int)
                + final(r)@,
            final(ring)@.contents() == old(ring)@.contents(),
            old(ring)@.frames_aligned() ==> final(ring)@.frames_aligned(),
    {
        let len = self.grant.len();
        let all = self.grant.buf_mut(ring);
        let r = slice_range_mut(all, self.hdr_len, len);
        proof {
            assert(r@ =~= old(ring)@.region(self@.0).skip(self@.1 as int));
        }
        r
    }
}

/// A read grant narrowed to one frame; `hdr_len` bytes of header come before
/// the payload.
pub struct FrameGrantRead {
    grant: GrantRead,
    hdr_len: usize,
}

impl View for FrameGrantRead {
    type V = (GrantRange, nat);

    closed spec fn view(&self) -> (GrantRange, nat) {
        (self.grant@, self.hdr_len as nat)
    }
}

impl FrameGrantRead {
    /// The payload.
    pub fn buf<'r, const N: usize>(&self, ring: &'r Ring<N>) -> (r: &'r [u8])
        requires
            ring@.wf(),
            ring@.frame_read_is(self@),
        ensures
            r@ == ring@.region(self@.0).skip(self@.1 as int),
            r@ == ring@.contents().subrange(self@.1 as int, self@.0.len as int),
    {
        proof {
            lemma_read_region(ring@, self@.0);
        }
        let all = self.grant.buf(ring);
        vstd::slice::slice_subrange(all, self.hdr_len, all.len())
    }

    /// The payload, to be changed in place.
    pub fn buf_mut<'r, const N: usize>(&self, ring: &'r mut Ring<N>) -> (r: &'r mut [u8])
        requires
            old(ring)@.wf(),
            old(ring)@.frame_read_is(self@),
        ensures
            final(ring).waiter_registered() == old(ring).waiter_registered(),
            r@ == old(ring)@.contents().subrange(self@.1 as int, self@.0.len as int),
            final(r)@.len() == r@.len(),
            final(ring)@.wf(),
            final(ring)@.book == old(ring)@.book,
            final(ring)@.frame_read_is(self@),
            final(ring)@.contents() == old(ring)@.contents().take(self@.1 as int) + final(r)@
                + old(ring)@.contents().skip(self@.0.len as int),
            old(ring)@.frames_aligned() ==> final(ring)@.frames_aligned(),
    {
        proof {
            lemma_read_region(ring@, self@.0);
        }
        let len = self.grant.len();
        let all = ring.read_region_bytes_mut(self.grant.range());
        let ghost whole = all@;
        let r = slice_range_mut(all, self.hdr_len, len);
        proof {
            assert(r@ =~= old(ring)@.contents().subrange(self@.1 as int, self@.0.len as int));
            assert(whole.subrange(0, self@.1 as int) =~= old(ring)@.contents().take(self@.1 as int));
            assert(whole.subrange(len as int, whole.len() as int) =~= Seq::<u8>::empty());
            let t = whole.subrange(0, self@.1 as int) + final(r)@ + whole.subrange(
                len as int,
                whole.len() as int,
            );
            assert(t.subrange(0, self@.1 as int) =~= whole.subrange(0, self@.1 as int));
            lemma_parse_same_header(whole, t);
            if old(ring)@.frames_aligned() {
                lemma_payload_change_keeps_aligned(
                    old(ring)@,
                    self@,
                    final(r)@,
                    old(ring)@.contents().take(self@.1 as int) + final(r)@ + old(
                        ring,
                    )@.contents().skip(self@.0.len as int),
                );
            }
        }
        r
    }

    /// Consumes the whole frame, header and payload, and wakes the waiting
    /// task.
    pub fn release<const N: usize>(self, ring: &mut Ring<N>, cs: CriticalSection)
        requires
            old(ring)@.wf(),
            old(ring)@.frame_read_is(self@),
        ensures
            !final(ring).waiter_registered(),
            final(ring)@.wf(),
            final(ring)@.book == old(ring)@.book.after_commit_read(self@.0.len as nat),
            final(ring)@.contents() == old(ring)@.contents().skip(self@.0.len as int),
            old(ring)@.frames_aligned() ==> final(ring)@.frames_aligned(),
    {
        let ghost before = ring@;
        let len = self.grant.len();
        self.grant.commit(ring, cs, len);
        proof {
            if before.frames_aligned() {
                lemma_consume_keeps_aligned(before, ring@, self@);
            }
        }
    }
}

impl<const N: usize> Ring<N> {
    /// Hands out a frame write grant for a payload of up to `max_sz` bytes.
    pub fn grant_frame(&mut self, cs: CriticalSection, max_sz: usize) -> (r: Result<
        FrameGrantWrite,
        Error,
    >)
        requires
            old(self)@.wf(),
        ensures
            final(self).waiter_registered() == old(self).waiter_registered(),
            final(self)@.wf(),
            final(self)@.bytes == old(self)@.bytes,
            final(self)@.contents() == old(self)@.contents(),
            match r {
                Ok(g) => {
                    &&& !old(self)@.book.write_in_progress
                    &&& g@.1 == header_len(max_sz)
                    &&& g@.0.len == max_sz + g@.1
                    &&& old(self)@.book.write_fit(N as nat, g@.0.len as nat) == Some(
                        g@.0.start as nat,
                    )
                    &&& final(self)@.book == old(self)@.book.after_acquire_write(
                        g@.0.start as nat,
                        g@.0.len as nat,
                    )
                    &&& final(self)@.frame_write_is(g@)
                },
                Err(Error::GrantInProgress) => {
                    &&& old(self)@.book.write_in_progress
                    &&& final(self)@ == old(self)@
                },
                Err(Error::InsufficientSize) => {
                    &&& !old(self)@.book.write_in_progress
                    &&& (max_sz + header_len(max_sz) > usize::MAX || old(self)@.book.write_fit(
                        N as nat,
                        (max_sz + header_len(max_sz)) as nat,
                    ) is None)
                    &&& final(self)@ == old(self)@
                },
            },
            old(self)@.frames_aligned() ==> final(self)@.frames_aligned(),
    {
        let hdr_len = encoded_len(max_sz);
        if max_sz > usize::MAX - hdr_len {
            // Such a frame can never fit; still report a grant in progress
            // first, as an exact grant would.
            return if self.book().write_in_progress {
                Err(Error::GrantInProgress)
            } else {
                Err(Error::InsufficientSize)
            };
        }
        match self.grant_exact(cs, max_sz + hdr_len) {
            Ok(grant) => Ok(FrameGrantWrite { grant, hdr_len }),
            Err(e) => Err(e),
        }
    }

    /// Hands out the oldest frame, if a whole one is readable in one piece.
    pub fn read_frame(&mut self, cs: CriticalSection) -> (r: Option<FrameGrantRead>)
        requires
            old(self)@.wf(),
        ensures
            final(self).waiter_registered() == old(self).waiter_registered(),
            final(self)@.wf(),
            final(self)@.bytes == old(self)@.bytes,
            final(self)@.contents() == old(self)@.contents(),
            final(self)@.book.write_in_progress == old(self)@.book.write_in_progress,
            match r {
                Some(f) => {
                    let part = old(self)@.contents().take(
                        old(self)@.book.after_acquire_read().contiguous_len() as int,
                    );
                    &&& !old(self)@.book.read_in_progress
                    &&& final(self)@.book == old(self)@.book.after_acquire_read()
                    &&& parse_frame(part) == Some((f@.1, (f@.0.len - f@.1) as nat))
                    &&& final(self)@.frame_read_is(f@)
                },
                None => {
                    &&& final(self)@.book.read_in_progress == old(self)@.book.read_in_progress
                    &&& (old(self)@.book.read_in_progress || old(self)@.contents().len() == 0
                        || parse_frame(
                        old(self)@.contents().take(
                            old(self)@.book.after_acquire_read().contiguous_len() as int,
                        ),
                    ) is None)
                },
            },
            old(self)@.frames_aligned() ==> final(self)@.frames_aligned(),
            old(self)@.frames_aligned() && !old(self)@.book.read_in_progress && old(self)@.contents().len() > 0 ==> r is Some,
    {
        let ghost before = self@;
        let mut grant = match self.read(cs) {
            Ok(g) => g,
            Err(_) => return None,
        };
        let ghost part = before.contents().take(
            before.book.after_acquire_read().contiguous_len() as int,
        );
        proof {
            if before.frames_aligned() {
                lemma_aligned_frame_ready(before);
            }
        }
        let buf = grant.buf(self);
        let hdr_len = decoded_len(buf[0]);
        if hdr_len > buf.len() || hdr_len > usize_size() + 1 {
            grant.release(self, cs);
            return None;
        }
        let frame_len = decode_usize(buf);
        if frame_len > buf.len() - hdr_len {
            grant.release(self, cs);
            return None;
        }
        let total_len = frame_len + hdr_len;
        grant.shrink(total_len);
        proof {
            let region = self@.region(grant@);
            lemma_read_region(self@, grant@);
            assert(region.subrange(0, hdr_len as int) =~= part.subrange(0, hdr_len as int));
            lemma_parse_same_header(part, region);
        }
        Some(FrameGrantRead { grant, hdr_len })
    }
}

} // verus!

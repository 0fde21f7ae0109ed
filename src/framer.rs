//! Framing: a connection's receive stream is a run of frames, each a VarInt
//! length and then that many bytes, which start with the VarInt packet id.
//! Bytes of a frame that has not fully arrived wait in an accumulator.
use vstd::prelude::*;

use crate::buf::{buf_advance, buf_data, buf_extend, buf_new, buf_slice, buf_split_to};
use crate::error::BufferError;
use crate::varint::{
    decode_var_int, encode_var_int, lemma_var_int_len, lemma_var_int_prefix, lemma_var_int_round_trip, var_int_bytes,
    var_int_decode,
};

verus! {

/// A packet taken from the stream: its id and the payload bytes after it.
#[derive(Debug)]
pub struct Packet {
    pub id: i32,
    pub buffer: bytes::BytesMut,
}

/// A packet as values: its id and its payload bytes.
pub open spec fn packet_view(p: Packet) -> (i32, Seq<u8>) {
    (p.id, buf_data(p.buffer))
}

/// What the front of `s` holds, for frames of at most `max` bytes: `None`
/// while the frame is incomplete; else the id, the payload and the bytes the
/// frame takes, or the error that makes the stream unreadable.
pub open spec fn next_frame(s: Seq<u8>, max: nat) -> Option<Result<(i32, Seq<u8>, nat), BufferError>> {
    match var_int_decode(s) {
        Err(BufferError::Truncated) => None,
        Err(e) => Some(Err(e)),
        Ok((len, n)) => if len < 0 || len > max {
            Some(Err(BufferError::FrameTooLarge))
        } else if s.len() < n + len {
            None
        } else {
            let frame = s.subrange(n as int, n + len);
            match var_int_decode(frame) {
                Ok((id, m)) => Some(Ok((id, frame.skip(m as int), (n + len) as nat))),
                Err(e) => Some(Err(e)),
            }
        },
    }
}

/// Splitting all complete frames off the front of `s`: the packets in order,
/// the bytes left, and the error that stopped the split, if one did.
pub open spec fn split_frames(s: Seq<u8>, max: nat) -> (Seq<(i32, Seq<u8>)>, Seq<u8>, Option<BufferError>)
    decreases s.len(),
{
    match next_frame(s, max) {
        None => (Seq::empty(), s, None),
        Some(Err(e)) => (Seq::empty(), s, Some(e)),
        Some(Ok((id, payload, used))) => if 0 < used <= s.len() {
            let (more, rest, err) = split_frames(s.skip(used as int), max);
            (seq![(id, payload)] + more, rest, err)
        } else {
            (Seq::empty(), s, None)
        },
    }
}

/// The frame of a packet: the VarInt length of the id's VarInt and the
/// payload, then both.
pub open spec fn frame_bytes(id: i32, payload: Seq<u8>) -> Seq<u8> {
    let body = var_int_bytes(id) + payload;
    var_int_bytes(body.len() as i32) + body
}

/// Takes a VarInt off the front of `buf`. `Ok(None)` where the bytes end
/// before the VarInt does (wait for more data); an error where it is
/// malformed. Either way `buf` is then untouched.
pub fn read_varint(buf: &mut bytes::BytesMut) -> (r: Result<Option<i32>, BufferError>)
    ensures
        match var_int_decode(buf_data(*old(buf))) {
            Ok((v, n)) => r == Ok::<Option<i32>, BufferError>(Some(v)) && buf_data(*final(buf)) == buf_data(
                *old(buf),
            ).skip(n as int),
            Err(BufferError::Truncated) => r == Ok::<Option<i32>, BufferError>(None) && buf_data(*final(buf))
                == buf_data(*old(buf)),
            Err(e) => r == Err::<Option<i32>, BufferError>(e) && buf_data(*final(buf)) == buf_data(*old(buf)),
        },
{
    let decoded = decode_var_int(buf_slice(buf));
    match decoded {
        Ok((v, n)) => {
            buf_advance(buf, n);
            Ok(Some(v))
        },
        Err(BufferError::Truncated) => Ok(None),
        Err(e) => Err(e),
    }
}

/// Whether the body of a packet's frame (id and payload) is within `max`
/// bytes and within what a VarInt length can declare.
pub open spec fn frame_fits(id: i32, payload: Seq<u8>, max: nat) -> bool {
    let body_len = (var_int_bytes(id) + payload).len();
    &&& body_len <= max
    &&& body_len <= i32::MAX
}

/// The frame of packet `id` with `payload`, ready to send.
pub fn frame_packet(id: i32, payload: &[u8]) -> (r: Result<bytes::BytesMut, BufferError>)
    ensures
        (var_int_bytes(id) + payload@).len() <= i32::MAX ==> (r matches Ok(b) && buf_data(b) == frame_bytes(
            id,
            payload@,
        )),
        (var_int_bytes(id) + payload@).len() > i32::MAX ==> r == Err::<bytes::BytesMut, BufferError>(
            BufferError::FrameTooLarge,
        ),
{
    let id_bytes = encode_var_int(id);
    proof {
        lemma_var_int_len(id);
    }
    if payload.len() > 0x7FFF_FFFF - id_bytes.len() {
        return Err(BufferError::FrameTooLarge);
    }
    let body_len = (id_bytes.len() + payload.len()) as i32;
    let prefix = encode_var_int(body_len);
    let mut out = buf_new();
    buf_extend(&mut out, prefix.as_slice());
    buf_extend(&mut out, id_bytes.as_slice());
    buf_extend(&mut out, payload);
    proof {
        assert(buf_data(out) =~= frame_bytes(id, payload@));
    }
    Ok(out)
}

/// Where a split stops without an error, what it leaves is the start of a
/// single frame: fewer bytes than a length prefix and a largest body.
pub proof fn lemma_split_leaves_one_partial_frame(s: Seq<u8>, max: nat)
    ensures
        split_frames(s, max).2 is None ==> split_frames(s, max).1.len() < max + 5,
    decreases s.len(),
{
    match next_frame(s, max) {
        Some(Ok((id, payload, used))) => {
            if 0 < used <= s.len() {
                lemma_split_leaves_one_partial_frame(s.skip(used as int), max);
            }
        },
        _ => {},
    }
}

/// No bytes hold no frame.
proof fn lemma_nothing_buffered(max: nat)
    ensures
        split_frames(Seq::<u8>::empty(), max) == (Seq::<(i32, Seq<u8>)>::empty(), Seq::<u8>::empty(), None::<BufferError>),
{
    assert(var_int_decode(Seq::<u8>::empty()) == Err::<(i32, nat), BufferError>(BufferError::Truncated));
}

/// A frame whose body fits, followed by anything, is read as that frame.
pub proof fn lemma_next_frame_of(id: i32, payload: Seq<u8>, rest: Seq<u8>, max: nat)
    requires
        frame_fits(id, payload, max),
    ensures
        next_frame(frame_bytes(id, payload) + rest, max) == Some(
            Ok::<(i32, Seq<u8>, nat), BufferError>((id, payload, frame_bytes(id, payload).len())),
        ),
{
    let body = var_int_bytes(id) + payload;
    let len = body.len() as i32;
    let s = frame_bytes(id, payload) + rest;
    assert(s =~= var_int_bytes(len) + (body + rest));
    lemma_var_int_round_trip(len, body + rest);
    let n = var_int_bytes(len).len();
    assert(s.subrange(n as int, n + len) =~= body);
    lemma_var_int_round_trip(id, payload);
    assert(body.skip(var_int_bytes(id).len() as int) =~= payload);
}

/// A frame whose body fits, followed by anything, splits into its packet
/// and then whatever follows splits as it would alone.
proof fn lemma_split_first_frame(id: i32, payload: Seq<u8>, rest: Seq<u8>, max: nat)
    requires
        frame_fits(id, payload, max),
    ensures
        ({
            let (more, left, err) = split_frames(rest, max);
            split_frames(frame_bytes(id, payload) + rest, max) == (seq![(id, payload)] + more, left, err)
        }),
{
    lemma_next_frame_of(id, payload, rest, max);
    lemma_var_int_len(id);
    let f = frame_bytes(id, payload);
    assert((f + rest).skip(f.len() as int) =~= rest);
}

/// Two complete frames that arrive together split into their two packets,
/// in order, and leave nothing behind.
pub proof fn lemma_two_frames(id1: i32, payload1: Seq<u8>, id2: i32, payload2: Seq<u8>, max: nat)
    requires
        frame_fits(id1, payload1, max),
        frame_fits(id2, payload2, max),
    ensures
        split_frames(frame_bytes(id1, payload1) + frame_bytes(id2, payload2), max) == (
            seq![(id1, payload1), (id2, payload2)],
            Seq::<u8>::empty(),
            None::<BufferError>,
        ),
{
    let f2 = frame_bytes(id2, payload2);
    lemma_nothing_buffered(max);
    lemma_split_first_frame(id2, payload2, Seq::empty(), max);
    assert(f2 + Seq::<u8>::empty() =~= f2);
    lemma_split_first_frame(id1, payload1, f2, max);
    assert(seq![(id1, payload1)] + (seq![(id2, payload2)] + Seq::<(i32, Seq<u8>)>::empty()) =~= seq![
        (id1, payload1),
        (id2, payload2),
    ]);
}

/// A frame cut before its end and delivered in two parts: the first part
/// alone yields no packet and is kept whole; with the second part added it
/// yields exactly the frame's packet and leaves nothing behind.
pub proof fn lemma_frame_in_two_parts(id: i32, payload: Seq<u8>, k: nat, max: nat)
    requires
        frame_fits(id, payload, max),
        k < frame_bytes(id, payload).len(),
    ensures
        split_frames(frame_bytes(id, payload).take(k as int), max) == (
            Seq::<(i32, Seq<u8>)>::empty(),
            frame_bytes(id, payload).take(k as int),
            None::<BufferError>,
        ),
        split_frames(frame_bytes(id, payload).take(k as int) + frame_bytes(id, payload).skip(k as int), max) == (
            seq![(id, payload)],
            Seq::<u8>::empty(),
            None::<BufferError>,
        ),
{
    let f = frame_bytes(id, payload);
    let body = var_int_bytes(id) + payload;
    let len = body.len() as i32;
    let prefix = var_int_bytes(len);
    let first = f.take(k as int);
    if k < prefix.len() {
        assert(first =~= prefix.take(k as int));
        lemma_var_int_prefix(len, k);
    } else {
        assert(first =~= prefix + body.take(k - prefix.len()));
        lemma_var_int_round_trip(len, body.take(k - prefix.len()));
    }
    assert(first + f.skip(k as int) =~= f + Seq::<u8>::empty());
    lemma_nothing_buffered(max);
    lemma_split_first_frame(id, payload, Seq::empty(), max);
    assert(seq![(id, payload)] + Seq::<(i32, Seq<u8>)>::empty() =~= seq![(id, payload)]);
}

/// A frame that declares more than `max` bytes is refused as soon as its
/// length prefix has arrived, however few of its bytes follow; nothing is
/// split off, and only the bytes received are kept.
pub proof fn lemma_oversized_frame(len: i32, rest: Seq<u8>, max: nat)
    requires
        len > max,
    ensures
        split_frames(var_int_bytes(len) + rest, max) == (
            Seq::<(i32, Seq<u8>)>::empty(),
            var_int_bytes(len) + rest,
            Some(BufferError::FrameTooLarge),
        ),
{
    lemma_var_int_round_trip(len, rest);
}

/// One connection's framing state: the bytes of an incomplete frame, and the
/// packets framed and not yet taken, oldest first.
pub struct ConnectionState {
    accumulator: bytes::BytesMut,
    queue: Vec<Packet>,
    max_frame_len: usize,
}

impl ConnectionState {
    /// Bytes received and not yet framed.
    pub closed spec fn pending(&self) -> Seq<u8> {
        buf_data(self.accumulator)
    }

    /// Packets framed and not yet taken, oldest first.
    pub closed spec fn queued(&self) -> Seq<(i32, Seq<u8>)> {
        self.queue@.map_values(|p: Packet| packet_view(p))
    }

    /// The largest frame length accepted.
    pub closed spec fn max_frame(&self) -> nat {
        self.max_frame_len as nat
    }

    /// A connection with nothing received, accepting frames of at most
    /// `max_frame_len` bytes.
    pub fn new(max_frame_len: usize) -> (r: ConnectionState)
        ensures
            r.pending() == Seq::<u8>::empty(),
            r.queued() == Seq::<(i32, Seq<u8>)>::empty(),
            r.max_frame() == max_frame_len,
    {
        let r = ConnectionState { accumulator: buf_new(), queue: Vec::new(), max_frame_len };
        proof {
            assert(r.queued() =~= Seq::<(i32, Seq<u8>)>::empty());
        }
        r
    }

    /// The largest frame length accepted.
    pub fn max_frame_len(&self) -> (r: usize)
        ensures
            r == self.max_frame(),
    {
        self.max_frame_len
    }

    /// Appends `data` to the accumulator, then splits off every complete
    /// frame and queues its packet. It stops at the first incomplete frame,
    /// whose bytes stay for the next call, or at a malformed one, with its
    /// error; the bytes from that frame on then stay too. On success it gives
    /// the number of packets queued.
    pub fn receive(&mut self, data: &[u8]) -> (r: Result<usize, BufferError>)
        ensures
            ({
                let (frames, rest, err) = split_frames(old(self).pending() + data@, old(self).max_frame());
                &&& final(self).queued() == old(self).queued() + frames
                &&& final(self).pending() == rest
                &&& match err {
                    None => r == Ok::<usize, BufferError>(frames.len() as usize),
                    Some(e) => r == Err::<usize, BufferError>(e),
                }
            }),
            final(self).max_frame() == old(self).max_frame(),
            r is Ok ==> final(self).pending().len() < final(self).max_frame() + 5,
    {
        proof {
            lemma_split_leaves_one_partial_frame(old(self).pending() + data@, self.max_frame_len as nat);
        }
        buf_extend(&mut self.accumulator, data);
        let ghost max = self.max_frame_len as nat;
        let ghost all = split_frames(buf_data(self.accumulator), max);
        let start_len = self.queue.len();
        let ghost mut done: nat = 0;
        loop
            invariant
                max == self.max_frame_len,
                self.max_frame_len == old(self).max_frame_len,
                all == split_frames(old(self).pending() + data@, max),
                self.queue@.len() == start_len + done,
                done <= all.0.len(),
                split_frames(buf_data(self.accumulator), max) == (all.0.skip(done as int), all.1, all.2),
                self.queued() == old(self).queued() + all.0.take(done as int),
            decreases buf_data(self.accumulator).len(),
        {
            let ghost cur = buf_data(self.accumulator);
            let view = buf_slice(&self.accumulator);
            let (len, n) = match decode_var_int(view) {
                Ok(p) => p,
                Err(BufferError::Truncated) => {
                    proof {
                        assert(all.0.skip(done as int).len() == 0);
                        assert(all.0.take(done as int) =~= all.0);
                    }
                    return Ok(self.queue.len() - start_len);
                },
                Err(e) => {
                    proof {
                        assert(all.0.skip(done as int).len() == 0);
                        assert(all.0.take(done as int) =~= all.0);
                    }
                    return Err(e);
                },
            };
            if len < 0 || len as usize > self.max_frame_len {
                proof {
                    assert(all.0.skip(done as int).len() == 0);
                    assert(all.0.take(done as int) =~= all.0);
                }
                return Err(BufferError::FrameTooLarge);
            }
            let size = len as usize;
            if view.len() - n < size {
                proof {
                    assert(all.0.skip(done as int).len() == 0);
                    assert(all.0.take(done as int) =~= all.0);
                }
                return Ok(self.queue.len() - start_len);
            }
            let (id, m) = match decode_var_int(&view[n..n + size]) {
                Ok(p) => p,
                Err(e) => {
                    proof {
                        assert(all.0.skip(done as int).len() == 0);
                        assert(all.0.take(done as int) =~= all.0);
                    }
                    return Err(e);
                },
            };
            buf_advance(&mut self.accumulator, n);
            let mut frame = buf_split_to(&mut self.accumulator, size);
            buf_advance(&mut frame, m);
            let ghost old_queue = self.queue@;
            let ghost old_queued = self.queued();
            self.queue.push(Packet { id, buffer: frame });
            proof {
                let frame_seq = cur.subrange(n as int, n + size);
                assert(buf_data(frame) =~= frame_seq.skip(m as int));
                assert(buf_data(self.accumulator) =~= cur.skip(n + size));
                let more = split_frames(cur.skip(n + size), max);
                assert(all.0.skip(done as int) == seq![(id, frame_seq.skip(m as int))] + more.0);
                assert(all.0.skip(done as int)[0] == all.0[done as int]);
                assert((seq![(id, frame_seq.skip(m as int))] + more.0)[0] == (id, frame_seq.skip(m as int)));
                assert(all.0[done as int] == (id, frame_seq.skip(m as int)));
                assert(all.0.take(done + 1 as int) =~= all.0.take(done as int).push(all.0[done as int]));
                assert(packet_view(Packet { id, buffer: frame }) == (id, frame_seq.skip(m as int)));
                assert(all.0.skip(done + 1 as int) =~= all.0.skip(done as int).skip(1));
                assert(all.0.skip(done as int).skip(1) =~= more.0);
                assert(self.queue@ == old_queue.push(Packet { id, buffer: frame }));
                assert(self.queued().len() == old_queued.len() + 1);
                assert forall|i: int| 0 <= i < old_queued.len() implies self.queued()[i] == old_queued[i] by {
                    assert(self.queue@[i] == old_queue[i]);
                }
                assert(self.queued()[old_queued.len() as int] == (id, frame_seq.skip(m as int)));
                assert(self.queued() =~= old_queued.push((id, frame_seq.skip(m as int))));
                assert(self.queued() =~= old(self).queued() + all.0.take(done + 1 as int));
                done = done + 1;
            }
        }
    }

    /// Takes every queued packet, oldest first, and leaves the queue empty.
    pub fn drain(&mut self) -> (r: Vec<Packet>)
        ensures
            r@.map_values(|p: Packet| packet_view(p)) == old(self).queued(),
            final(self).queued() == Seq::<(i32, Seq<u8>)>::empty(),
            final(self).pending() == old(self).pending(),
            final(self).max_frame() == old(self).max_frame(),
    {
        let mut r: Vec<Packet> = Vec::new();
        r.append(&mut self.queue);
        proof {
            assert(self.queued() =~= Seq::<(i32, Seq<u8>)>::empty());
        }
        r
    }
}

} // verus!

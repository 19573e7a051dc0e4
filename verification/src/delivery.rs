//! What a receiver recovers from what a sender wrote.
//!
//! A packet handed to the sender is cut into the frames of
//! [`plan_frames`](crate::framing::plan_frames); the receiver scans the
//! byte stream with a [`FrameDecoder`](crate::framing::FrameDecoder) and
//! pushes each data frame into the channel its header names.
use vstd::prelude::*;

use crate::channel::{assemble, ChannelState};
use crate::framing::{chunk_delimiter, chunk_header, chunk_len, decode_all, plan_from, scan, FrameSlice};
use crate::wire_protocol::{
    header_at, header_bytes, lemma_header_roundtrip, lemma_pack_unpack, FrameType, PacketDelimiter,
    SproqetPacketHeader, HEADER_SIZE, MTU, SPROQET_MAGIC,
};

verus! {

/// The bytes written for the frames `plan` of the packet `data`: each
/// header, then the payload bytes it covers.
pub open spec fn frames_bytes(plan: Seq<FrameSlice>, data: Seq<u8>) -> Seq<u8>
    decreases plan.len(),
{
    if plan.len() == 0 {
        Seq::empty()
    } else {
        header_bytes(plan[0].header) + data.subrange(plan[0].start as int, plan[0].end as int)
            + frames_bytes(plan.drop_first(), data)
    }
}

/// The frames (header and payload) that carry `data` from offset `off` on.
pub open spec fn frames_from(channel_id: u32, data: Seq<u8>, off: nat) -> Seq<
    (SproqetPacketHeader, Seq<u8>),
>
    decreases data.len() - off,
{
    if data.len() > usize::MAX || off > data.len() || (off == data.len() && off > 0) {
        Seq::empty()
    } else {
        let c = chunk_len(data.len(), off);
        let frame = (chunk_header(channel_id, data.len(), off), data.subrange(off as int, (off + c) as int));
        if data.len() == 0 {
            seq![frame]
        } else {
            seq![frame] + frames_from(channel_id, data, off + c)
        }
    }
}

/// A channel's state after a data frame arrives, when a slot is free for
/// a packet it completes.
pub open spec fn deliver(st: ChannelState, frame: (SproqetPacketHeader, Seq<u8>)) -> ChannelState {
    let d = frame.0.spec_delimiter();
    let is_start = d == PacketDelimiter::Start.spec_value() || d == PacketDelimiter::Whole.spec_value();
    let is_stop = d == PacketDelimiter::Stop.spec_value() || d == PacketDelimiter::Whole.spec_value();
    let a = assemble(st.assembly, frame.1, is_start);
    if is_stop {
        ChannelState { id: st.id, assembly: Seq::empty(), packets: st.packets.push(a) }
    } else {
        ChannelState { id: st.id, assembly: a, packets: st.packets }
    }
}

/// A channel's state after `frames` arrive one by one.
pub open spec fn deliver_all(st: ChannelState, frames: Seq<(SproqetPacketHeader, Seq<u8>)>) -> ChannelState
    decreases frames.len(),
{
    if frames.len() == 0 {
        st
    } else {
        deliver_all(deliver(st, frames[0]), frames.drop_first())
    }
}

/// `st` with `packet` completed: queued, and the assembly buffer emptied.
pub open spec fn completed(st: ChannelState, packet: Seq<u8>) -> ChannelState {
    ChannelState { id: st.id, assembly: Seq::empty(), packets: st.packets.push(packet) }
}

/// No byte of `junk` can start a header.
pub open spec fn no_magic(junk: Seq<u8>) -> bool {
    forall|i: int| 0 <= i < junk.len() ==> junk[i] != SPROQET_MAGIC
}

proof fn lemma_scan_bounds(s: Seq<u8>)
    ensures
        scan(s).0 <= s.len(),
        scan(s).1 is Some ==> HEADER_SIZE <= scan(s).0,
    decreases s.len(),
{
    if s.len() > 0 {
        if s[0] != SPROQET_MAGIC {
            lemma_scan_bounds(s.drop_first());
        } else if s.len() >= HEADER_SIZE {
            let h = header_at(s, 0);
            let end = HEADER_SIZE + h.data_size;
            if s.len() >= end && h.spec_frame_type() != FrameType::Data.spec_value() {
                lemma_scan_bounds(s.skip(end));
            }
        }
    }
}

proof fn lemma_scan_junk(junk: Seq<u8>, s: Seq<u8>)
    requires
        no_magic(junk),
    ensures
        scan(junk + s) == ((scan(s).0 + junk.len()) as nat, scan(s).1),
    decreases junk.len(),
{
    if junk.len() > 0 {
        assert((junk + s)[0] == junk[0]);
        assert((junk + s).drop_first() =~= junk.drop_first() + s);
        lemma_scan_junk(junk.drop_first(), s);
    } else {
        assert(junk + s =~= s);
    }
}

/// Bytes that cannot start a header are skipped: what follows them decodes
/// as it would alone.
pub proof fn lemma_decode_junk(junk: Seq<u8>, s: Seq<u8>)
    requires
        no_magic(junk),
    ensures
        decode_all(junk + s) == decode_all(s),
{
    lemma_scan_junk(junk, s);
    lemma_scan_bounds(s);
    let r = scan(s);
    if r.1 is Some {
        assert((junk + s).skip((r.0 + junk.len()) as int) =~= s.skip(r.0 as int));
    }
}

pub(crate) proof fn lemma_chunk_header(channel_id: u32, total: nat, off: nat)
    requires
        off <= total,
    ensures
        chunk_header(channel_id, total, off).spec_frame_type() == FrameType::Data.spec_value(),
        chunk_header(channel_id, total, off).spec_delimiter() == chunk_delimiter(total, off).spec_value(),
        chunk_header(channel_id, total, off).data_size == chunk_len(total, off),
        chunk_len(total, off) <= MTU,
        off < total ==> 0 < chunk_len(total, off),
{
    let d = chunk_delimiter(total, off).spec_value();
    lemma_pack_unpack(d, 5);
    assert(5u8 & 0x1Fu8 == 5u8) by (bit_vector);
}

pub(crate) proof fn lemma_scan_frame(h: SproqetPacketHeader, payload: Seq<u8>, rest: Seq<u8>)
    requires
        h.magic == SPROQET_MAGIC,
        h.spec_frame_type() == FrameType::Data.spec_value(),
        h.data_size == payload.len(),
    ensures
        scan(header_bytes(h) + payload + rest) == ((HEADER_SIZE + payload.len()) as nat, Some((h, payload))),
{
    let s = header_bytes(h) + payload + rest;
    lemma_header_roundtrip(h);
    assert(s.subrange(0, HEADER_SIZE as int) =~= header_bytes(h));
    assert(header_at(s, 0) == header_at(header_bytes(h), 0));
    assert(s.subrange(HEADER_SIZE as int, HEADER_SIZE + payload.len()) =~= payload);
}

proof fn lemma_decode_empty_packet(channel_id: u32, data: Seq<u8>, rest: Seq<u8>)
    requires
        data.len() == 0,
    ensures
        decode_all(frames_bytes(plan_from(channel_id, 0, 0), data) + rest) == frames_from(
            channel_id,
            data,
            0,
        ) + decode_all(rest),
{
    let plan = plan_from(channel_id, 0, 0);
    let body = frames_bytes(plan, data);
    let h = chunk_header(channel_id, 0, 0);
    let payload = data.subrange(0, 0);
    lemma_chunk_header(channel_id, 0, 0);
    assert(payload =~= Seq::<u8>::empty());
    assert(plan.len() == 1 && plan[0].header == h && plan[0].start == 0 && plan[0].end == 0);
    assert(plan.drop_first() =~= Seq::<FrameSlice>::empty());
    assert(frames_bytes(plan.drop_first(), data) =~= Seq::<u8>::empty());
    assert(body =~= header_bytes(h) + payload);
    assert(body + rest =~= header_bytes(h) + payload + rest);
    lemma_scan_frame(h, payload, rest);
    assert((body + rest).skip(HEADER_SIZE as int) =~= rest);
    assert(frames_from(channel_id, data, 0) + decode_all(rest) =~= seq![(h, payload)] + decode_all(
        rest,
    ));
}

/// A complete frame of a type other than `Data` is skipped whole, header
/// and payload: what follows it decodes as it would alone.
pub proof fn lemma_skip_other_frame(h: SproqetPacketHeader, payload: Seq<u8>, rest: Seq<u8>)
    requires
        h.magic == SPROQET_MAGIC,
        h.spec_frame_type() != FrameType::Data.spec_value(),
        h.data_size == payload.len(),
    ensures
        decode_all(header_bytes(h) + payload + rest) == decode_all(rest),
{
    let s = header_bytes(h) + payload + rest;
    let end = HEADER_SIZE + payload.len();
    lemma_header_roundtrip(h);
    assert(s.subrange(0, HEADER_SIZE as int) =~= header_bytes(h));
    assert(header_at(s, 0) == header_at(header_bytes(h), 0));
    assert(s.skip(end) =~= rest);
    lemma_scan_bounds(rest);
    let r = scan(rest);
    if r.1 is Some {
        assert(s.skip(r.0 + end) =~= rest.skip(r.0 as int));
    }
}

/// Recovering frames from the bytes written for a packet, after any bytes
/// that cannot start a header and before anything else, gives the
/// packet's frames and then what the rest decodes to.
#[verifier::spinoff_prover]
#[verifier::rlimit(30)]
pub proof fn lemma_decode_packet(channel_id: u32, data: Seq<u8>, off: nat, junk: Seq<u8>, rest: Seq<u8>)
    requires
        no_magic(junk),
        data.len() <= usize::MAX,
        off <= data.len(),
    ensures
        decode_all(junk + frames_bytes(plan_from(channel_id, data.len(), off), data) + rest)
            == frames_from(channel_id, data, off) + decode_all(rest),
    decreases data.len() - off,
{
    let plan = plan_from(channel_id, data.len(), off);
    let body = frames_bytes(plan, data);
    assert(junk + body + rest =~= junk + (body + rest));
    lemma_decode_junk(junk, body + rest);
    if data.len() == 0 {
        lemma_decode_empty_packet(channel_id, data, rest);
    } else if off >= data.len() {
        assert(body + rest =~= rest);
        assert(frames_from(channel_id, data, off) + decode_all(rest) =~= decode_all(rest));
    } else {
        let c = chunk_len(data.len(), off);
        let h = chunk_header(channel_id, data.len(), off);
        let payload = data.subrange(off as int, (off + c) as int);
        lemma_chunk_header(channel_id, data.len(), off);
        let tail = frames_bytes(plan_from(channel_id, data.len(), off + c), data) + rest;
        assert(plan.drop_first() == plan_from(channel_id, data.len(), off + c));
        assert(body + rest =~= header_bytes(h) + payload + tail);
        lemma_scan_frame(h, payload, tail);
        let s = body + rest;
        assert(s.skip(HEADER_SIZE + c) =~= tail);
        lemma_decode_packet(channel_id, data, off + c, Seq::empty(), rest);
        assert(Seq::<u8>::empty() + frames_bytes(plan_from(channel_id, data.len(), off + c), data)
            + rest =~= tail);
        assert(frames_from(channel_id, data, off) + decode_all(rest) =~= seq![(h, payload)] + (
        frames_from(channel_id, data, off + c) + decode_all(rest)));
    }
}

pub(crate) proof fn lemma_deliver_all_concat(
    st: ChannelState,
    a: Seq<(SproqetPacketHeader, Seq<u8>)>,
    b: Seq<(SproqetPacketHeader, Seq<u8>)>,
)
    ensures
        deliver_all(st, a + b) == deliver_all(deliver_all(st, a), b),
    decreases a.len(),
{
    if a.len() == 0 {
        assert(a + b =~= b);
    } else {
        assert((a + b).drop_first() =~= a.drop_first() + b);
        lemma_deliver_all_concat(deliver(st, a[0]), a.drop_first(), b);
    }
}

proof fn lemma_reassemble_rest(channel_id: u32, data: Seq<u8>, off: nat, st: ChannelState)
    requires
        data.len() <= usize::MAX,
        MTU < data.len(),
        0 < off < data.len(),
        st.assembly == data.subrange(0, off as int),
    ensures
        deliver_all(st, frames_from(channel_id, data, off)) == completed(st, data),
    decreases data.len() - off,
{
    let c = chunk_len(data.len(), off);
    let fs = frames_from(channel_id, data, off);
    lemma_chunk_header(channel_id, data.len(), off);
    let st1 = deliver(st, fs[0]);
    assert(fs.drop_first() == frames_from(channel_id, data, off + c));
    assert(st.assembly + data.subrange(off as int, (off + c) as int) =~= data.subrange(0, (off + c) as int));
    if off + c >= data.len() {
        assert(data.subrange(0, (off + c) as int) =~= data);
        assert(frames_from(channel_id, data, off + c) =~= Seq::<(SproqetPacketHeader, Seq<u8>)>::empty());
        assert(st1 == completed(st, data));
        assert(deliver_all(st1, frames_from(channel_id, data, off + c)) == st1);
    } else {
        assert(st1.assembly == data.subrange(0, (off + c) as int));
        lemma_reassemble_rest(channel_id, data, off + c, st1);
        assert(completed(st1, data) == completed(st, data));
    }
    assert(deliver_all(st, fs) == deliver_all(st1, fs.drop_first()));
}

/// Delivering, in order, the frames that carry a packet to a channel with
/// a free slot queues exactly that packet and leaves the assembly buffer
/// empty, whatever was being assembled before.
pub proof fn lemma_reassemble(channel_id: u32, data: Seq<u8>, st: ChannelState)
    requires
        data.len() <= usize::MAX,
    ensures
        deliver_all(st, frames_from(channel_id, data, 0)) == completed(st, data),
{
    let fs = frames_from(channel_id, data, 0);
    let c = chunk_len(data.len(), 0);
    lemma_chunk_header(channel_id, data.len(), 0);
    let st1 = deliver(st, fs[0]);
    if data.len() == 0 {
        assert(data.subrange(0, 0) =~= data);
        assert(fs.drop_first() =~= Seq::<(SproqetPacketHeader, Seq<u8>)>::empty());
        assert(st1 == completed(st, data));
        assert(deliver_all(st1, fs.drop_first()) == st1);
    } else if data.len() <= MTU {
        assert(fs.drop_first() == frames_from(channel_id, data, c));
        assert(data.subrange(0, c as int) =~= data);
        assert(Seq::<u8>::empty() + data =~= data);
        assert(frames_from(channel_id, data, c) =~= Seq::<(SproqetPacketHeader, Seq<u8>)>::empty());
        assert(st1 == completed(st, data));
        assert(deliver_all(st1, frames_from(channel_id, data, c)) == st1);
    } else {
        assert(fs.drop_first() == frames_from(channel_id, data, c));
        assert(Seq::<u8>::empty() + data.subrange(0, c as int) =~= data.subrange(0, c as int));
        lemma_reassemble_rest(channel_id, data, c, st1);
        assert(completed(st1, data) == completed(st, data));
    }
    assert(deliver_all(st, fs) == deliver_all(st1, fs.drop_first()));
}

/// What a channel receives is what was sent on it: the bytes written for a
/// packet on `channel_id`, received after bytes that cannot
/// start a header, decode to frames that, delivered to that channel, queue
/// exactly the packet.
pub proof fn lemma_send_receive(channel_id: u32, data: Seq<u8>, junk: Seq<u8>, st: ChannelState)
    requires
        data.len() <= usize::MAX,
        no_magic(junk),
    ensures
        deliver_all(st, decode_all(junk + frames_bytes(plan_from(channel_id, data.len(), 0), data)))
            == completed(st, data),
{
    let bytes = frames_bytes(plan_from(channel_id, data.len(), 0), data);
    lemma_decode_packet(channel_id, data, 0, junk, Seq::empty());
    assert(junk + bytes + Seq::<u8>::empty() =~= junk + bytes);
    assert(decode_all(Seq::<u8>::empty()) =~= Seq::<(SproqetPacketHeader, Seq<u8>)>::empty());
    assert(frames_from(channel_id, data, 0) + decode_all(Seq::<u8>::empty()) =~= frames_from(
        channel_id,
        data,
        0,
    ));
    lemma_reassemble(channel_id, data, st);
}

/// The bytes written for `packets`, one after another, on `channel_id`.
pub open spec fn stream_bytes(channel_id: u32, packets: Seq<Seq<u8>>) -> Seq<u8>
    decreases packets.len(),
{
    if packets.len() == 0 {
        Seq::empty()
    } else {
        frames_bytes(plan_from(channel_id, packets[0].len(), 0), packets[0]) + stream_bytes(
            channel_id,
            packets.drop_first(),
        )
    }
}

/// `st` with all of `packets` completed, in order.
pub open spec fn completed_all(st: ChannelState, packets: Seq<Seq<u8>>) -> ChannelState {
    ChannelState { id: st.id, assembly: Seq::empty(), packets: st.packets + packets }
}

/// Packets sent one after another on a channel arrive there complete and
/// in the order they were sent.
pub proof fn lemma_send_receive_in_order(channel_id: u32, packets: Seq<Seq<u8>>, st: ChannelState)
    requires
        packets.len() > 0,
        forall|i: int| 0 <= i < packets.len() ==> #[trigger] packets[i].len() <= usize::MAX,
    ensures
        deliver_all(st, decode_all(stream_bytes(channel_id, packets))) == completed_all(st, packets),
    decreases packets.len(),
{
    let p0 = packets[0];
    let rest = packets.drop_first();
    let rest_bytes = stream_bytes(channel_id, rest);
    assert(p0.len() <= usize::MAX);
    lemma_decode_packet(channel_id, p0, 0, Seq::empty(), rest_bytes);
    let b0 = frames_bytes(plan_from(channel_id, p0.len(), 0), p0);
    assert(Seq::<u8>::empty() + b0 + rest_bytes =~= stream_bytes(channel_id, packets));
    lemma_deliver_all_concat(st, frames_from(channel_id, p0, 0), decode_all(rest_bytes));
    lemma_reassemble(channel_id, p0, st);
    let st1 = completed(st, p0);
    if rest.len() == 0 {
        assert(rest_bytes =~= Seq::<u8>::empty());
        assert(decode_all(rest_bytes) =~= Seq::<(SproqetPacketHeader, Seq<u8>)>::empty());
        assert(st.packets.push(p0) =~= st.packets + packets);
    } else {
        assert forall|i: int| 0 <= i < rest.len() implies #[trigger] rest[i].len() <= usize::MAX by {
            assert(rest[i] == packets[i + 1]);
        }
        lemma_send_receive_in_order(channel_id, rest, st1);
        assert(st1.packets + rest =~= st.packets + packets);
    }
}

/// Calling `next_frame` until it returns `None` on buffered bytes `s`: the
/// frames returned, and the bytes left buffered.
pub open spec fn drain(s: Seq<u8>) -> (Seq<(SproqetPacketHeader, Seq<u8>)>, Seq<u8>)
    decreases s.len(),
{
    let r = scan(s);
    match r.1 {
        Some(f) => if 0 < r.0 <= s.len() {
            let d = drain(s.skip(r.0 as int));
            (seq![f] + d.0, d.1)
        } else {
            (Seq::empty(), s)
        },
        None => (Seq::empty(), s.skip(r.0 as int)),
    }
}

proof fn lemma_scan_append(s: Seq<u8>, t: Seq<u8>)
    ensures
        scan(s).1 is Some ==> scan(s + t) == scan(s),
        scan(s).1 is None ==> scan(s + t) == (
        (scan(s).0 + scan(s.skip(scan(s).0 as int) + t).0) as nat,
        scan(s.skip(scan(s).0 as int) + t).1,
    ),
    decreases s.len(),
{
    lemma_scan_bounds(s);
    let st = s + t;
    if s.len() == 0 {
        assert(s.skip(0) + t =~= st);
    } else if s[0] != SPROQET_MAGIC {
        let s1 = s.drop_first();
        assert(st[0] == s[0]);
        assert(st.drop_first() =~= s1 + t);
        lemma_scan_append(s1, t);
        lemma_scan_bounds(s1);
        assert(s.skip((scan(s1).0 + 1) as int) =~= s1.skip(scan(s1).0 as int));
    } else if s.len() < HEADER_SIZE {
        assert(s.skip(0) + t =~= st);
    } else {
        assert(st.subrange(0, HEADER_SIZE as int) =~= s.subrange(0, HEADER_SIZE as int));
        assert(header_at(st, 0) == header_at(s, 0)) by {
            assert forall|i: int| 0 <= i < HEADER_SIZE implies st[i] == s[i] by {}
        }
        let h = header_at(s, 0);
        let end = HEADER_SIZE + h.data_size;
        if s.len() < end {
            assert(s.skip(0) + t =~= st);
        } else if h.spec_frame_type() != FrameType::Data.spec_value() {
            assert(st.skip(end) =~= s.skip(end) + t);
            lemma_scan_append(s.skip(end), t);
            lemma_scan_bounds(s.skip(end));
            let k = scan(s.skip(end)).0;
            assert(s.skip(end + k) =~= s.skip(end).skip(k as int));
        } else {
            assert(st.subrange(HEADER_SIZE as int, end) =~= s.subrange(HEADER_SIZE as int, end));
        }
    }
}

/// Recovering frames does not depend on how the stream is cut into reads:
/// draining the frames of the bytes received so far, then decoding what is
/// left buffered followed by the rest of the stream, gives exactly the
/// frames of the whole stream.
pub proof fn lemma_decode_in_pieces(s: Seq<u8>, t: Seq<u8>)
    ensures
        drain(s).0 + decode_all(drain(s).1 + t) == decode_all(s + t),
    decreases s.len(),
{
    let r = scan(s);
    lemma_scan_bounds(s);
    lemma_scan_append(s, t);
    match r.1 {
        Some(f) => {
            let rest = s.skip(r.0 as int);
            assert((s + t).skip(r.0 as int) =~= rest + t);
            lemma_decode_in_pieces(rest, t);
            let d = drain(rest);
            assert(seq![f] + d.0 + decode_all(d.1 + t) =~= seq![f] + (d.0 + decode_all(d.1 + t)));
        },
        None => {
            let rest = s.skip(r.0 as int);
            let q = scan(rest + t);
            lemma_scan_bounds(rest + t);
            if q.1 is Some {
                assert((s + t).skip((r.0 + q.0) as int) =~= (rest + t).skip(q.0 as int));
            }
            assert(Seq::<(SproqetPacketHeader, Seq<u8>)>::empty() + decode_all(rest + t) =~= decode_all(
                rest + t,
            ));
        },
    }
}

} // verus!

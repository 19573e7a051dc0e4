//! Many channels on one stream.
//!
//! Frames of packets sent on different channels may interleave on the
//! wire. The receiver routes each recovered data frame to the channel its
//! header names, creating the channel on its first frame, and every
//! channel still ends up with exactly its own packets, in the order they
//! were sent.
use vstd::prelude::*;

use crate::channel::ChannelState;
use crate::delivery::{
    completed, completed_all, deliver, deliver_all, frames_from, lemma_chunk_header, lemma_deliver_all_concat,
    lemma_reassemble, lemma_scan_frame,
};
use crate::framing::{chunk_len, decode_all};
use crate::wire_protocol::{
    header_bytes, lemma_header_roundtrip, FrameType, PacketDelimiter, SproqetPacketHeader, HEADER_SIZE, MTU,
    SPROQET_MAGIC,
};

verus! {

/// A channel that has received nothing yet.
pub open spec fn fresh_state(c: u32) -> ChannelState {
    ChannelState { id: c, assembly: Seq::empty(), packets: Seq::empty() }
}

/// The state of channel `c` among `chs`; a fresh channel where there is
/// none yet.
pub open spec fn state_of(chs: Map<u32, ChannelState>, c: u32) -> ChannelState {
    if chs.contains_key(c) {
        chs[c]
    } else {
        fresh_state(c)
    }
}

/// The channels after one data frame is handed to the channel its header
/// names.
pub open spec fn route(chs: Map<u32, ChannelState>, f: (SproqetPacketHeader, Seq<u8>)) -> Map<
    u32,
    ChannelState,
> {
    chs.insert(f.0.channel_id, deliver(state_of(chs, f.0.channel_id), f))
}

/// The channels after `fs` are routed one by one.
pub open spec fn route_all(chs: Map<u32, ChannelState>, fs: Seq<(SproqetPacketHeader, Seq<u8>)>) -> Map<
    u32,
    ChannelState,
>
    decreases fs.len(),
{
    if fs.len() == 0 {
        chs
    } else {
        route_all(route(chs, fs[0]), fs.drop_first())
    }
}

/// The frames of `fs` whose header names channel `c`, in order.
pub open spec fn on_channel(fs: Seq<(SproqetPacketHeader, Seq<u8>)>, c: u32) -> Seq<
    (SproqetPacketHeader, Seq<u8>),
>
    decreases fs.len(),
{
    if fs.len() == 0 {
        Seq::empty()
    } else if fs[0].0.channel_id == c {
        seq![fs[0]] + on_channel(fs.drop_first(), c)
    } else {
        on_channel(fs.drop_first(), c)
    }
}

/// The bytes on the wire for the frames `fs`: each header, then its
/// payload.
pub open spec fn frames_wire(fs: Seq<(SproqetPacketHeader, Seq<u8>)>) -> Seq<u8>
    decreases fs.len(),
{
    if fs.len() == 0 {
        Seq::empty()
    } else {
        header_bytes(fs[0].0) + fs[0].1 + frames_wire(fs.drop_first())
    }
}

/// The frames that carry `packets`, one packet after another, on channel
/// `c`.
pub open spec fn packet_frames(c: u32, packets: Seq<Seq<u8>>) -> Seq<(SproqetPacketHeader, Seq<u8>)>
    decreases packets.len(),
{
    if packets.len() == 0 {
        Seq::empty()
    } else {
        frames_from(c, packets[0], 0) + packet_frames(c, packets.drop_first())
    }
}

/// The frames of one packet as any conforming sender may cut it: a single
/// `Whole` frame, or a `Start` frame, any number of `Continuation` frames
/// and a `Stop` frame.
pub open spec fn is_packet_run(fs: Seq<(SproqetPacketHeader, Seq<u8>)>) -> bool {
    ||| fs.len() == 1 && fs[0].0.spec_delimiter() == PacketDelimiter::Whole.spec_value()
    ||| {
        &&& fs.len() >= 2
        &&& fs[0].0.spec_delimiter() == PacketDelimiter::Start.spec_value()
        &&& fs[fs.len() - 1].0.spec_delimiter() == PacketDelimiter::Stop.spec_value()
        &&& forall|i: int|
            0 < i < fs.len() - 1 ==> #[trigger] fs[i].0.spec_delimiter()
                == PacketDelimiter::Continuation.spec_value()
    }
}

/// The payloads of `fs`, one after another.
pub open spec fn payloads(fs: Seq<(SproqetPacketHeader, Seq<u8>)>) -> Seq<u8>
    decreases fs.len(),
{
    if fs.len() == 0 {
        Seq::empty()
    } else {
        fs[0].1 + payloads(fs.drop_first())
    }
}

/// The frames of `runs`, one run after another.
pub open spec fn concat_runs(runs: Seq<Seq<(SproqetPacketHeader, Seq<u8>)>>) -> Seq<
    (SproqetPacketHeader, Seq<u8>),
>
    decreases runs.len(),
{
    if runs.len() == 0 {
        Seq::empty()
    } else {
        runs[0] + concat_runs(runs.drop_first())
    }
}

/// The packet each of `runs` carries: its payloads, concatenated.
pub open spec fn run_payloads(runs: Seq<Seq<(SproqetPacketHeader, Seq<u8>)>>) -> Seq<Seq<u8>>
    decreases runs.len(),
{
    if runs.len() == 0 {
        Seq::empty()
    } else {
        seq![payloads(runs[0])] + run_payloads(runs.drop_first())
    }
}

/// A data frame whose header announces exactly its payload.
pub open spec fn wf_frame(f: (SproqetPacketHeader, Seq<u8>)) -> bool {
    &&& f.0.magic == SPROQET_MAGIC
    &&& f.0.spec_frame_type() == FrameType::Data.spec_value()
    &&& f.0.data_size == f.1.len()
}

/// Routing keeps channels apart, whatever the frames: each channel ends as
/// if it had been handed, in order, only the frames that name it, and a
/// channel that no frame names is left as it was.
pub proof fn lemma_route_all(chs: Map<u32, ChannelState>, fs: Seq<(SproqetPacketHeader, Seq<u8>)>, c: u32)
    ensures
        state_of(route_all(chs, fs), c) == deliver_all(state_of(chs, c), on_channel(fs, c)),
        on_channel(fs, c).len() == 0 ==> route_all(chs, fs).contains_key(c) == chs.contains_key(c),
        on_channel(fs, c).len() == 0 && chs.contains_key(c) ==> route_all(chs, fs)[c] == chs[c],
    decreases fs.len(),
{
    if fs.len() > 0 {
        let f = fs[0];
        let rest = fs.drop_first();
        let chs1 = route(chs, f);
        lemma_route_all(chs1, rest, c);
        if f.0.channel_id == c {
            let oc = on_channel(fs, c);
            assert(oc[0] == f);
            assert(oc.drop_first() =~= on_channel(rest, c));
            assert(state_of(chs1, c) == deliver(state_of(chs, c), f));
        } else {
            assert(state_of(chs1, c) == state_of(chs, c));
        }
    }
}

/// The bytes of well-formed data frames, written one after another,
/// decode to exactly those frames, whoever cut them.
#[verifier::spinoff_prover]
pub proof fn lemma_decode_frames(fs: Seq<(SproqetPacketHeader, Seq<u8>)>)
    requires
        forall|j: int| 0 <= j < fs.len() ==> wf_frame(#[trigger] fs[j]),
    ensures
        decode_all(frames_wire(fs)) == fs,
    decreases fs.len(),
{
    if fs.len() == 0 {
        assert(decode_all(frames_wire(fs)) =~= fs);
    } else {
        let f = fs[0];
        let rest = fs.drop_first();
        assert(wf_frame(f));
        assert forall|j: int| 0 <= j < rest.len() implies wf_frame(#[trigger] rest[j]) by {
            assert(rest[j] == fs[j + 1]);
        }
        lemma_decode_frames(rest);
        let tail = frames_wire(rest);
        let s = frames_wire(fs);
        assert(s == header_bytes(f.0) + f.1 + tail);
        lemma_header_roundtrip(f.0);
        lemma_scan_frame(f.0, f.1, tail);
        let n = HEADER_SIZE + f.1.len();
        assert(s.len() == n + tail.len());
        assert(s.skip(n) =~= tail);
        assert(decode_all(s) == seq![f] + decode_all(s.skip(n)));
        assert(fs =~= seq![f] + rest);
    }
}

proof fn lemma_wf_all(fs: Seq<(SproqetPacketHeader, Seq<u8>)>)
    requires
        forall|c: u32, j: int|
            0 <= j < on_channel(fs, c).len() ==> wf_frame(#[trigger] on_channel(fs, c)[j]),
    ensures
        forall|j: int| 0 <= j < fs.len() ==> wf_frame(#[trigger] fs[j]),
    decreases fs.len(),
{
    if fs.len() > 0 {
        let rest = fs.drop_first();
        let c0 = fs[0].0.channel_id;
        assert(on_channel(fs, c0)[0] == fs[0]);
        assert forall|c: u32, j: int| 0 <= j < on_channel(rest, c).len() implies wf_frame(
            #[trigger] on_channel(rest, c)[j],
        ) by {
            if c == c0 {
                assert(on_channel(rest, c)[j] == on_channel(fs, c)[j + 1]);
            } else {
                assert(on_channel(rest, c) == on_channel(fs, c));
            }
        }
        lemma_wf_all(rest);
        assert forall|j: int| 0 <= j < fs.len() implies wf_frame(#[trigger] fs[j]) by {
            if j > 0 {
                assert(fs[j] == rest[j - 1]);
            }
        }
    }
}

proof fn lemma_frames_from_wf(c: u32, data: Seq<u8>, off: nat)
    requires
        data.len() <= usize::MAX,
        off <= data.len(),
    ensures
        forall|j: int|
            0 <= j < frames_from(c, data, off).len() ==> wf_frame(#[trigger] frames_from(c, data, off)[j]),
    decreases data.len() - off,
{
    let fs = frames_from(c, data, off);
    if fs.len() > 0 {
        let k = chunk_len(data.len(), off);
        lemma_chunk_header(c, data.len(), off);
        assert(k <= MTU);
        assert(wf_frame(fs[0]));
        if data.len() > 0 {
            lemma_frames_from_wf(c, data, off + k);
            assert forall|j: int| 0 <= j < fs.len() implies wf_frame(#[trigger] fs[j]) by {
                if j > 0 {
                    assert(fs[j] == frames_from(c, data, off + k)[j - 1]);
                }
            }
        }
    }
}

proof fn lemma_packet_frames_wf(c: u32, packets: Seq<Seq<u8>>)
    requires
        forall|i: int| 0 <= i < packets.len() ==> #[trigger] packets[i].len() <= usize::MAX,
    ensures
        forall|j: int|
            0 <= j < packet_frames(c, packets).len() ==> wf_frame(#[trigger] packet_frames(c, packets)[j]),
    decreases packets.len(),
{
    if packets.len() > 0 {
        let rest = packets.drop_first();
        let a = frames_from(c, packets[0], 0);
        let b = packet_frames(c, rest);
        assert(packets[0].len() <= usize::MAX);
        lemma_frames_from_wf(c, packets[0], 0);
        assert forall|i: int| 0 <= i < rest.len() implies #[trigger] rest[i].len() <= usize::MAX by {
            assert(rest[i] == packets[i + 1]);
        }
        lemma_packet_frames_wf(c, rest);
        assert forall|j: int| 0 <= j < (a + b).len() implies wf_frame(#[trigger] (a + b)[j]) by {
            if j < a.len() {
                assert((a + b)[j] == a[j]);
            } else {
                assert((a + b)[j] == b[j - a.len()]);
            }
        }
    }
}

proof fn lemma_deliver_packets(st: ChannelState, c: u32, packets: Seq<Seq<u8>>)
    requires
        packets.len() > 0,
        forall|i: int| 0 <= i < packets.len() ==> #[trigger] packets[i].len() <= usize::MAX,
    ensures
        deliver_all(st, packet_frames(c, packets)) == completed_all(st, packets),
    decreases packets.len(),
{
    let p0 = packets[0];
    let rest = packets.drop_first();
    assert(p0.len() <= usize::MAX);
    lemma_deliver_all_concat(st, frames_from(c, p0, 0), packet_frames(c, rest));
    lemma_reassemble(c, p0, st);
    let st1 = completed(st, p0);
    if rest.len() == 0 {
        assert(packet_frames(c, rest) =~= Seq::<(SproqetPacketHeader, Seq<u8>)>::empty());
        assert(st.packets.push(p0) =~= st.packets + packets);
    } else {
        assert forall|i: int| 0 <= i < rest.len() implies #[trigger] rest[i].len() <= usize::MAX by {
            assert(rest[i] == packets[i + 1]);
        }
        lemma_deliver_packets(st1, c, rest);
        assert(st1.packets + rest =~= st.packets + packets);
    }
}

proof fn lemma_continue_run(st: ChannelState, fs: Seq<(SproqetPacketHeader, Seq<u8>)>)
    requires
        fs.len() >= 1,
        fs[fs.len() - 1].0.spec_delimiter() == PacketDelimiter::Stop.spec_value(),
        forall|i: int|
            0 <= i < fs.len() - 1 ==> #[trigger] fs[i].0.spec_delimiter()
                == PacketDelimiter::Continuation.spec_value(),
    ensures
        deliver_all(st, fs) == completed(st, st.assembly + payloads(fs)),
    decreases fs.len(),
{
    let f = fs[0];
    let rest = fs.drop_first();
    let st1 = deliver(st, f);
    if fs.len() == 1 {
        assert(payloads(rest) =~= Seq::<u8>::empty());
        assert(payloads(fs) =~= f.1);
        assert(st1 == completed(st, st.assembly + payloads(fs)));
        assert(deliver_all(st1, rest) == st1);
    } else {
        assert(f.0.spec_delimiter() == PacketDelimiter::Continuation.spec_value());
        assert(st1.assembly == st.assembly + f.1);
        assert forall|i: int| 0 <= i < rest.len() - 1 implies #[trigger] rest[i].0.spec_delimiter()
            == PacketDelimiter::Continuation.spec_value() by {
            assert(rest[i] == fs[i + 1]);
        }
        assert(rest[rest.len() - 1] == fs[fs.len() - 1]);
        lemma_continue_run(st1, rest);
        assert(st1.assembly + payloads(rest) =~= st.assembly + payloads(fs));
    }
}

/// A packet arrives whole however a conforming sender cut it: delivering,
/// in order, a `Whole` frame, or a `Start` frame, `Continuation` frames
/// and a `Stop` frame, to a channel with a free slot queues the
/// concatenation of their payloads and empties the assembly buffer,
/// whatever was being assembled before.
pub proof fn lemma_reassemble_run(st: ChannelState, fs: Seq<(SproqetPacketHeader, Seq<u8>)>)
    requires
        is_packet_run(fs),
    ensures
        deliver_all(st, fs) == completed(st, payloads(fs)),
{
    let f = fs[0];
    let rest = fs.drop_first();
    let st1 = deliver(st, f);
    if fs.len() == 1 {
        assert(payloads(rest) =~= Seq::<u8>::empty());
        assert(payloads(fs) =~= f.1);
        assert(Seq::<u8>::empty() + f.1 =~= f.1);
        assert(st1 == completed(st, payloads(fs)));
        assert(deliver_all(st1, rest) == st1);
    } else {
        assert(Seq::<u8>::empty() + f.1 =~= f.1);
        assert(st1.assembly == f.1);
        assert forall|i: int| 0 <= i < rest.len() - 1 implies #[trigger] rest[i].0.spec_delimiter()
            == PacketDelimiter::Continuation.spec_value() by {
            assert(rest[i] == fs[i + 1]);
        }
        assert(rest[rest.len() - 1] == fs[fs.len() - 1]);
        lemma_continue_run(st1, rest);
        assert(st1.assembly + payloads(rest) =~= payloads(fs));
    }
}

/// Packets cut by conforming senders, delivered one after another, are
/// queued complete and in order.
pub proof fn lemma_deliver_runs(st: ChannelState, runs: Seq<Seq<(SproqetPacketHeader, Seq<u8>)>>)
    requires
        runs.len() > 0,
        forall|i: int| 0 <= i < runs.len() ==> is_packet_run(#[trigger] runs[i]),
    ensures
        deliver_all(st, concat_runs(runs)) == completed_all(st, run_payloads(runs)),
    decreases runs.len(),
{
    let r0 = runs[0];
    let rest = runs.drop_first();
    assert(is_packet_run(r0));
    lemma_deliver_all_concat(st, r0, concat_runs(rest));
    lemma_reassemble_run(st, r0);
    let st1 = completed(st, payloads(r0));
    if rest.len() == 0 {
        assert(concat_runs(rest) =~= Seq::<(SproqetPacketHeader, Seq<u8>)>::empty());
        assert(run_payloads(rest) =~= Seq::<Seq<u8>>::empty());
        assert(run_payloads(runs) =~= seq![payloads(r0)]);
        assert(st.packets.push(payloads(r0)) =~= st.packets + run_payloads(runs));
    } else {
        assert forall|i: int| 0 <= i < rest.len() implies is_packet_run(#[trigger] rest[i]) by {
            assert(rest[i] == runs[i + 1]);
        }
        lemma_deliver_runs(st1, rest);
        assert(st1.packets + run_payloads(rest) =~= st.packets + run_payloads(runs));
    }
}

/// A channel sharing the stream with others receives what conforming
/// senders sent on it. Whatever well-formed data frames `fs` are written,
/// in whatever interleaving, where the frames naming channel `c` are, in
/// order, the packet runs `runs`, the bytes decode to exactly `fs`, and
/// routing them leaves `c` with the packets of `runs` completed, in order,
/// after what it held.
pub proof fn lemma_multiplex_runs(
    fs: Seq<(SproqetPacketHeader, Seq<u8>)>,
    c: u32,
    runs: Seq<Seq<(SproqetPacketHeader, Seq<u8>)>>,
    chs: Map<u32, ChannelState>,
)
    requires
        forall|j: int| 0 <= j < fs.len() ==> wf_frame(#[trigger] fs[j]),
        on_channel(fs, c) == concat_runs(runs),
        runs.len() > 0,
        forall|i: int| 0 <= i < runs.len() ==> is_packet_run(#[trigger] runs[i]),
    ensures
        decode_all(frames_wire(fs)) == fs,
        state_of(route_all(chs, decode_all(frames_wire(fs))), c) == completed_all(
            state_of(chs, c),
            run_payloads(runs),
        ),
{
    lemma_decode_frames(fs);
    lemma_route_all(chs, fs, c);
    lemma_deliver_runs(state_of(chs, c), runs);
}

/// Channels multiplexed on one stream keep their packets apart.
///
/// `fs` is any interleaving of the frames of `packets[i]` sent on channel
/// `chans[i]`, for each `i`: taken alone, the frames on each channel are
/// those of its packets, in order, and no frame names another channel.
/// Then the bytes on the wire decode to exactly `fs`, and routing them
/// leaves each channel `chans[i]` with `packets[i]` completed, in order,
/// after what it held, while every other channel is left as it was.
pub proof fn lemma_multiplex(
    fs: Seq<(SproqetPacketHeader, Seq<u8>)>,
    chans: Seq<u32>,
    packets: Seq<Seq<Seq<u8>>>,
    chs: Map<u32, ChannelState>,
)
    requires
        chans.len() == packets.len(),
        forall|i: int| 0 <= i < packets.len() ==> #[trigger] packets[i].len() > 0,
        forall|i: int, k: int|
            0 <= i < packets.len() && 0 <= k < packets[i].len() ==> #[trigger] packets[i][k].len()
                <= usize::MAX,
        forall|i: int|
            0 <= i < chans.len() ==> on_channel(fs, #[trigger] chans[i]) == packet_frames(
                chans[i],
                packets[i],
            ),
        forall|c: u32| !chans.contains(c) ==> #[trigger] on_channel(fs, c).len() == 0,
    ensures
        decode_all(frames_wire(fs)) == fs,
        forall|i: int|
            0 <= i < chans.len() ==> state_of(route_all(chs, decode_all(frames_wire(fs))), #[trigger] chans[i])
                == completed_all(state_of(chs, chans[i]), packets[i]),
        forall|c: u32|
            !chans.contains(c) ==> #[trigger] route_all(chs, decode_all(frames_wire(fs))).contains_key(c)
                == chs.contains_key(c),
        forall|c: u32|
            !chans.contains(c) && chs.contains_key(c) ==> #[trigger] route_all(
                chs,
                decode_all(frames_wire(fs)),
            )[c] == chs[c],
{
    assert forall|c: u32, j: int| 0 <= j < on_channel(fs, c).len() implies wf_frame(
        #[trigger] on_channel(fs, c)[j],
    ) by {
        if chans.contains(c) {
            let i = choose|i: int| 0 <= i < chans.len() && chans[i] == c;
            assert(on_channel(fs, chans[i]) == packet_frames(chans[i], packets[i]));
            assert forall|k: int| 0 <= k < packets[i].len() implies #[trigger] packets[i][k].len()
                <= usize::MAX by {}
            lemma_packet_frames_wf(c, packets[i]);
        }
    }
    lemma_wf_all(fs);
    lemma_decode_frames(fs);
    assert forall|i: int| 0 <= i < chans.len() implies state_of(route_all(chs, decode_all(frames_wire(fs))), #[trigger] chans[i])
        == completed_all(state_of(chs, chans[i]), packets[i]) by {
        let c = chans[i];
        lemma_route_all(chs, fs, c);
        assert(packets[i].len() > 0);
        assert forall|k: int| 0 <= k < packets[i].len() implies #[trigger] packets[i][k].len()
            <= usize::MAX by {}
        lemma_deliver_packets(state_of(chs, c), c, packets[i]);
    }
    assert forall|c: u32| !chans.contains(c) implies #[trigger] route_all(chs, decode_all(frames_wire(fs))).contains_key(c)
        == chs.contains_key(c) by {
        lemma_route_all(chs, fs, c);
    }
    assert forall|c: u32| !chans.contains(c) && chs.contains_key(c) implies #[trigger] route_all(
        chs,
        decode_all(frames_wire(fs)),
    )[c] == chs[c] by {
        lemma_route_all(chs, fs, c);
    }
}

} // verus!

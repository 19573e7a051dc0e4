//! Splitting packets into frames, and recovering frames from a byte stream.
//!
//! A packet of at most `MTU` bytes travels as one `Whole` frame; a larger
//! one as a `Start` frame, any number of `Continuation` frames and a final
//! `Stop` frame, each carrying at most `MTU` bytes. A receiver discards any
//! byte that is not `SPROQET_MAGIC` where a header should start, and skips
//! (header and payload) any frame whose type is not `Data`.
use vstd::prelude::*;

use crate::bytes::append_bytes;
use crate::wire_protocol::{
    header_at, FrameType, PacketDelimiter, SproqetPacketHeader, HEADER_SIZE, MTU,
    SPROQET_MAGIC,
};

verus! {

/// One frame of a packet: its header and the payload bytes `start..end`
/// that follow it.
#[derive(Debug, Clone, Copy, PartialEq, Eq, Structural)]
pub struct FrameSlice {
    /// The header to send.
    pub header: SproqetPacketHeader,
    /// First payload byte (inclusive).
    pub start: usize,
    /// Last payload byte (exclusive).
    pub end: usize,
}

/// Bytes carried by the frame that starts at `off` of a `total`-byte packet.
pub open spec fn chunk_len(total: nat, off: nat) -> nat {
    if total - off < MTU {
        (total - off) as nat
    } else {
        MTU as nat
    }
}

/// Delimiter of the frame that starts at `off` of a `total`-byte packet.
pub open spec fn chunk_delimiter(total: nat, off: nat) -> PacketDelimiter {
    if total <= MTU {
        PacketDelimiter::Whole
    } else if off == 0 {
        PacketDelimiter::Start
    } else if off + chunk_len(total, off) >= total {
        PacketDelimiter::Stop
    } else {
        PacketDelimiter::Continuation
    }
}

/// The header of the frame that starts at `off` of a `total`-byte packet.
pub open spec fn chunk_header(channel_id: u32, total: nat, off: nat) -> SproqetPacketHeader {
    SproqetPacketHeader {
        magic: SPROQET_MAGIC,
        flags: crate::wire_protocol::pack_flags(
            chunk_delimiter(total, off).spec_value(),
            FrameType::Data.spec_value(),
        ),
        channel_id,
        data_size: chunk_len(total, off) as u16,
        route_link_id: 0,
    }
}

/// The frames from `off` on of a `total`-byte packet sent on `channel_id`.
/// Every packet has at least one frame: an empty one travels as a single
/// `Whole` frame with no payload.
pub open spec fn plan_from(channel_id: u32, total: nat, off: nat) -> Seq<FrameSlice>
    decreases total - off,
{
    if total > usize::MAX || off > total || (off == total && total > 0) {
        Seq::empty()
    } else {
        let c = chunk_len(total, off);
        let frame = FrameSlice {
            header: chunk_header(channel_id, total, off),
            start: off as usize,
            end: (off + c) as usize,
        };
        if total == 0 {
            seq![frame]
        } else {
            seq![frame] + plan_from(channel_id, total, off + c)
        }
    }
}

/// Frame `k` of an `n`-byte packet on `channel_id`, in closed form: it
/// carries bytes `MTU * k` up to the lesser of `MTU * (k + 1)` and `n`.
pub open spec fn frame_at(channel_id: u32, n: nat, k: nat) -> FrameSlice {
    let s = MTU * k;
    let e: int = if MTU * (k + 1) < n {
        MTU * (k + 1)
    } else {
        n as int
    };
    FrameSlice { header: chunk_header(channel_id, n, s as nat), start: s as usize, end: e as usize }
}

/// The number of frames of a non-empty `n`-byte packet: `n / MTU`, rounded
/// up.
pub open spec fn frame_count(n: nat) -> nat {
    ((n + MTU - 1) / (MTU as int)) as nat
}

proof fn lemma_plan_from_at(channel_id: u32, n: nat, j: nat)
    requires
        0 < n <= usize::MAX,
        MTU * j < n,
    ensures
        plan_from(channel_id, n, (MTU * j) as nat).len() + j == frame_count(n),
        forall|k: int|
            0 <= k < plan_from(channel_id, n, (MTU * j) as nat).len() ==> #[trigger] plan_from(
                channel_id,
                n,
                (MTU * j) as nat,
            )[k] == frame_at(channel_id, n, (j + k) as nat),
    decreases n - MTU * j,
{
    let off = MTU * j;
    let p = plan_from(channel_id, n, off as nat);
    let c = chunk_len(n, off as nat);
    assert(p[0] == frame_at(channel_id, n, j));
    if off + MTU >= n {
        assert(off + c == n);
        assert(plan_from(channel_id, n, n) =~= Seq::<FrameSlice>::empty());
        assert(p.len() == 1);
        assert(frame_count(n) == j + 1);
    } else {
        assert(off + c == MTU * (j + 1));
        lemma_plan_from_at(channel_id, n, j + 1);
        let q = plan_from(channel_id, n, (MTU * (j + 1)) as nat);
        assert(p == seq![frame_at(channel_id, n, j)] + q);
        assert forall|k: int| 0 <= k < p.len() implies #[trigger] p[k] == frame_at(
            channel_id,
            n,
            (j + k) as nat,
        ) by {
            if k > 0 {
                assert(p[k] == q[k - 1]);
            }
        }
    }
}

/// The frames of a non-empty packet in closed form: there are
/// `frame_count(n)` of them, and frame `k` is `frame_at(channel_id, n, k)`.
pub proof fn lemma_plan_closed_form(channel_id: u32, n: nat)
    requires
        0 < n <= usize::MAX,
    ensures
        plan_from(channel_id, n, 0).len() == frame_count(n),
        forall|k: int|
            0 <= k < frame_count(n) ==> #[trigger] plan_from(channel_id, n, 0)[k] == frame_at(
                channel_id,
                n,
                k as nat,
            ),
{
    assert(MTU * 0 == 0);
    lemma_plan_from_at(channel_id, n, 0);
}

proof fn lemma_flag_values()
    ensures
        crate::wire_protocol::pack_flags(0, 5) == 0x05u8,
        crate::wire_protocol::pack_flags(1, 5) == 0x25u8,
        crate::wire_protocol::pack_flags(2, 5) == 0x45u8,
        crate::wire_protocol::pack_flags(3, 5) == 0x65u8,
{
    assert(((0u8 << 5u8) | (5u8 & 0x1Fu8)) == 0x05u8 && ((1u8 << 5u8) | (5u8 & 0x1Fu8)) == 0x25u8
        && ((2u8 << 5u8) | (5u8 & 0x1Fu8)) == 0x45u8 && ((3u8 << 5u8) | (5u8 & 0x1Fu8)) == 0x65u8)
        by (bit_vector);
}

/// How a packet of `n` bytes is cut into frames, stated by position and
/// header field alone.
///
/// There is one frame for an empty packet, else `n / 1400` rounded up.
/// The frames cover the packet's bytes in order, with no gap and no
/// overlap; all but the last carry exactly 1400 bytes and none more. Every
/// header has the magic byte `0xF3`, the packet's channel, a data size
/// equal to the bytes the frame carries, and route link 0; its flags are
/// `0x65` (`Whole`, `Data`) where the packet fits one frame, else `0x25`
/// (`Start`) on the first frame, `0x45` (`Stop`) on the last and `0x05`
/// (`Continuation`) between.
pub proof fn lemma_plan_frames_shape(channel_id: u32, n: nat)
    requires
        n <= usize::MAX,
    ensures
        ({
            let p = plan_from(channel_id, n, 0);
            &&& p.len() == if n == 0 {
                1
            } else {
                (n + 1399) / 1400
            }
            &&& p[0].start == 0
            &&& p[p.len() - 1].end == n
            &&& forall|k: int| 0 <= k < p.len() - 1 ==> #[trigger] p[k].end == p[k + 1].start
            &&& forall|k: int| 0 <= k < p.len() - 1 ==> #[trigger] p[k].end - p[k].start == 1400
            &&& forall|k: int|
                0 <= k < p.len() ==> {
                    let h = #[trigger] p[k].header;
                    &&& p[k].start <= p[k].end <= n
                    &&& p[k].end - p[k].start <= 1400
                    &&& h.magic == 0xF3u8
                    &&& h.channel_id == channel_id
                    &&& h.route_link_id == 0
                    &&& h.data_size as int == p[k].end - p[k].start
                    &&& h.flags == if n <= 1400 {
                        0x65u8
                    } else if k == 0 {
                        0x25u8
                    } else if k == p.len() - 1 {
                        0x45u8
                    } else {
                        0x05u8
                    }
                }
        }),
{
    let p = plan_from(channel_id, n, 0);
    lemma_flag_values();
    if n == 0 {
        assert(p.len() == 1);
    } else {
        lemma_plan_closed_form(channel_id, n);
        let c = frame_count(n);
        assert(c == (n + 1399) / 1400);
        assert(c >= 1);
        assert(1400 * (c - 1) < n <= 1400 * c);
        assert forall|k: int| 0 <= k < p.len() implies {
            let h = #[trigger] p[k].header;
            &&& p[k].start <= p[k].end <= n
            &&& p[k].end - p[k].start <= 1400
            &&& h.magic == 0xF3u8
            &&& h.channel_id == channel_id
            &&& h.route_link_id == 0
            &&& h.data_size as int == p[k].end - p[k].start
            &&& h.flags == if n <= 1400 {
                0x65u8
            } else if k == 0 {
                0x25u8
            } else if k == p.len() - 1 {
                0x45u8
            } else {
                0x05u8
            }
        } by {
            assert(p[k] == frame_at(channel_id, n, k as nat));
            assert(1400 * k < n);
            if k < c - 1 {
                assert(1400 * (k + 1) < n);
            } else {
                assert(1400 * (k + 1) >= n);
            }
        }
        assert forall|k: int| 0 <= k < p.len() - 1 implies #[trigger] p[k].end == p[k + 1].start by {
            assert(p[k] == frame_at(channel_id, n, k as nat));
            assert(p[k + 1] == frame_at(channel_id, n, (k + 1) as nat));
            assert(1400 * (k + 1) < n);
        }
        assert forall|k: int| 0 <= k < p.len() - 1 implies #[trigger] p[k].end - p[k].start == 1400 by {
            assert(p[k] == frame_at(channel_id, n, k as nat));
            assert(1400 * (k + 1) < n);
        }
        assert(p[0] == frame_at(channel_id, n, 0));
        assert(p[c - 1] == frame_at(channel_id, n, (c - 1) as nat));
    }
}

/// The frames that carry a `len`-byte packet on `channel_id`, in the
/// order they are sent. An empty packet is one `Whole` frame with no
/// payload.
pub fn plan_frames(channel_id: u32, len: usize) -> (frames: Vec<FrameSlice>)
    ensures
        frames@ == plan_from(channel_id, len as nat, 0),
        forall|k: int|
            0 <= k < frames@.len() ==> (#[trigger] frames@[k]).header.magic == SPROQET_MAGIC
                && frames@[k].header.channel_id == channel_id && frames@[k].header.route_link_id == 0
                && frames@[k].header.data_size as int == frames@[k].end - frames@[k].start,
{
    proof {
        lemma_plan_frames_shape(channel_id, len as nat);
    }
    let mut frames: Vec<FrameSlice> = Vec::new();
    if len == 0 {
        let header = SproqetPacketHeader::new(PacketDelimiter::Whole, FrameType::Data, channel_id, 0);
        frames.push(FrameSlice { header, start: 0, end: 0 });
        assert(frames@ =~= plan_from(channel_id, len as nat, 0));
        return frames;
    }
    let mut off: usize = 0;
    assert(frames@ + plan_from(channel_id, len as nat, 0) =~= plan_from(channel_id, len as nat, 0));
    while off < len
        invariant
            0 < len,
            off <= len,
            frames@ + plan_from(channel_id, len as nat, off as nat) == plan_from(
                channel_id,
                len as nat,
                0,
            ),
        decreases len - off,
    {
        let chunk = if len - off < MTU {
            len - off
        } else {
            MTU
        };
        let delimiter = if len <= MTU {
            PacketDelimiter::Whole
        } else if off == 0 {
            PacketDelimiter::Start
        } else if chunk >= len - off {
            PacketDelimiter::Stop
        } else {
            PacketDelimiter::Continuation
        };
        let header = SproqetPacketHeader::new(delimiter, FrameType::Data, channel_id, chunk as u16);
        let ghost before = frames@;
        frames.push(FrameSlice { header, start: off, end: off + chunk });
        assert(before + plan_from(channel_id, len as nat, off as nat) =~= frames@ + plan_from(
            channel_id,
            len as nat,
            (off + chunk) as nat,
        ));
        off = off + chunk;
    }
    assert(frames@ + plan_from(channel_id, len as nat, off as nat) =~= frames@);
    frames
}

/// A data frame recovered from the stream: its header and payload.
#[derive(Debug)]
pub struct Frame {
    /// The frame's header.
    pub header: SproqetPacketHeader,
    /// The `header.data_size` payload bytes.
    pub payload: Vec<u8>,
}

impl Frame {
    /// Whether this frame begins a packet (`Start` or `Whole`).
    pub fn is_start(&self) -> (r: bool)
        ensures
            r == (self.header.spec_delimiter() == PacketDelimiter::Start.spec_value()
                || self.header.spec_delimiter() == PacketDelimiter::Whole.spec_value()),
    {
        let d = self.header.delimiter();
        d == PacketDelimiter::Start.value() || d == PacketDelimiter::Whole.value()
    }

    /// Whether this frame ends a packet (`Stop` or `Whole`).
    pub fn is_stop(&self) -> (r: bool)
        ensures
            r == (self.header.spec_delimiter() == PacketDelimiter::Stop.spec_value()
                || self.header.spec_delimiter() == PacketDelimiter::Whole.spec_value()),
    {
        let d = self.header.delimiter();
        d == PacketDelimiter::Stop.value() || d == PacketDelimiter::Whole.value()
    }
}

/// Scanning buffered bytes `s` for the next data frame: the number of
/// leading bytes that are consumed, and the frame (header and payload) if
/// a complete one was found. Bytes that cannot start a header are
/// discarded one at a time; frames of another type are skipped whole;
/// an incomplete header or payload waits for more bytes.
pub open spec fn scan(s: Seq<u8>) -> (nat, Option<(SproqetPacketHeader, Seq<u8>)>)
    decreases s.len(),
{
    if s.len() == 0 {
        (0, None)
    } else if s[0] != SPROQET_MAGIC {
        let r = scan(s.drop_first());
        (r.0 + 1, r.1)
    } else if s.len() < HEADER_SIZE {
        (0, None)
    } else {
        let h = header_at(s, 0);
        let end = HEADER_SIZE + h.data_size;
        if s.len() < end {
            (0, None)
        } else if h.spec_frame_type() != FrameType::Data.spec_value() {
            let r = scan(s.skip(end));
            ((r.0 + end) as nat, r.1)
        } else {
            (end as nat, Some((h, s.subrange(HEADER_SIZE as int, end))))
        }
    }
}

/// Every data frame that can be recovered from `s`, in order.
pub open spec fn decode_all(s: Seq<u8>) -> Seq<(SproqetPacketHeader, Seq<u8>)>
    decreases s.len(),
{
    let r = scan(s);
    match r.1 {
        Some(f) => if 0 < r.0 <= s.len() {
            seq![f] + decode_all(s.skip(r.0 as int))
        } else {
            Seq::empty()
        },
        None => Seq::empty(),
    }
}

/// Incremental recovery of frames from a byte stream.
pub struct FrameDecoder {
    pending: Vec<u8>,
}

impl View for FrameDecoder {
    type V = Seq<u8>;

    /// The bytes received but not yet consumed.
    closed spec fn view(&self) -> Seq<u8> {
        self.pending@
    }
}

/// The header whose 12 bytes start at `s[i]`.
fn header_from_slice(s: &[u8], i: usize) -> (h: SproqetPacketHeader)
    requires
        i + HEADER_SIZE <= s@.len(),
    ensures
        h == header_at(s@, i as int),
{
    SproqetPacketHeader {
        magic: s[i],
        flags: s[i + 1],
        channel_id: (s[i + 2] as u32) | ((s[i + 3] as u32) << 8u32) | ((s[i + 4] as u32) << 16u32)
            | ((s[i + 5] as u32) << 24u32),
        data_size: (s[i + 6] as u16) | ((s[i + 7] as u16) << 8u16),
        route_link_id: (s[i + 8] as u32) | ((s[i + 9] as u32) << 8u32) | ((s[i + 10] as u32)
            << 16u32) | ((s[i + 11] as u32) << 24u32),
    }
}

impl FrameDecoder {
    /// A decoder with nothing buffered.
    pub fn new() -> (d: Self)
        ensures
            d@ == Seq::<u8>::empty(),
    {
        FrameDecoder { pending: Vec::new() }
    }

    /// Buffer bytes received from the transport.
    pub fn feed(&mut self, bytes: &[u8])
        ensures
            final(self)@ == old(self)@ + bytes@,
    {
        append_bytes(&mut self.pending, bytes);
    }

    /// The next complete data frame, if the buffered bytes hold one. The
    /// bytes scanned past (discarded junk, skipped frames, and the frame
    /// returned) leave the buffer.
    pub fn next_frame(&mut self) -> (r: Option<Frame>)
        ensures
            final(self)@ == old(self)@.skip(scan(old(self)@).0 as int),
            match scan(old(self)@).1 {
                Some(f) => r matches Some(fr) && fr.header == f.0 && fr.payload@ == f.1,
                None => r is None,
            },
    {
        let n = self.pending.len();
        let ghost p = self.pending@;
        let mut i: usize = 0;
        let mut consumed: usize = 0;
        let mut found: Option<Frame> = None;
        assert(p.skip(0) =~= p);
        while i < n
            invariant_except_break
                found is None,
                consumed == i,
            invariant
                i <= n,
                n == p.len(),
                p == self.pending@,
                scan(p).0 == scan(p.skip(i as int)).0 + i,
                scan(p).1 == scan(p.skip(i as int)).1,
            ensures
                consumed <= n,
                scan(p).0 == consumed,
                match found {
                    None => scan(p).1 is None,
                    Some(fr) => scan(p).1 == Some((fr.header, fr.payload@)),
                },
            decreases n - i,
        {
            let ghost q = p.skip(i as int);
            if self.pending[i] != SPROQET_MAGIC {
                assert(q.drop_first() =~= p.skip(i + 1));
                i += 1;
                consumed = i;
                continue;
            }
            if n - i < HEADER_SIZE {
                break;
            }
            let h = header_from_slice(self.pending.as_slice(), i);
            assert(header_at(q, 0) == h);
            let end: usize = HEADER_SIZE + h.data_size as usize;
            if n - i < end {
                break;
            }
            if h.frame_type() != FrameType::Data.value() {
                assert(q.skip(end as int) =~= p.skip(i + end));
                i += end;
                consumed = i;
                continue;
            }
            let mut payload: Vec<u8> = Vec::new();
            let mut j: usize = i + HEADER_SIZE;
            while j < i + end
                invariant
                    i + HEADER_SIZE <= j <= i + end,
                    i + end <= n,
                    n == self.pending@.len(),
                    payload@ == self.pending@.subrange(i + HEADER_SIZE, j as int),
                decreases i + end - j,
            {
                payload.push(self.pending[j]);
                j += 1;
                assert(payload@ =~= self.pending@.subrange(i + HEADER_SIZE, j as int));
            }
            assert(payload@ =~= q.subrange(HEADER_SIZE as int, end as int));
            found = Some(Frame { header: h, payload });
            consumed = i + end;
            break;
        }
        proof {
            if found is None && i == n {
                assert(p.skip(n as int) =~= Seq::<u8>::empty());
            }
        }
        let rest = self.pending.split_off(consumed);
        self.pending = rest;
        found
    }
}

} // verus!
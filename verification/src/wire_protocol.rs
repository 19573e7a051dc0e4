//! Wire protocol constants and the 12-byte packet header.
//!
//! Layout: `magic(1) | flags(1) | channel_id(4 LE) | data_size(2 LE) | route_link_id(4 LE)`,
//! with `flags = (delimiter << 5) | (frame_type & 0x1F)`.
use vstd::prelude::*;

use crate::bytes::{
    le_bytes_u16, le_bytes_u32, lemma_u16_bytes_roundtrip, lemma_u16_roundtrip,
    lemma_u32_bytes_roundtrip, lemma_u32_roundtrip, u16_at, u32_at,
};

verus! {

/// The Sproqet magic byte: `'s' | 0x80` = `0xF3`. The high bit is set so
/// it can never be confused with printable ASCII during resync scans.
pub const SPROQET_MAGIC: u8 = 0xF3;

/// Size of the packet header in bytes.
pub const HEADER_SIZE: usize = 12;

/// Maximum payload bytes per frame. Larger payloads are split across frames.
pub const MTU: usize = 1400;

/// Where a frame sits in the larger packet it belongs to.
///
/// Bit 0 of the wire value means "is start", bit 1 means "is stop".
#[derive(Debug, Clone, Copy, PartialEq, Eq, Structural)]
pub enum PacketDelimiter {
    /// Middle frame of a multi-frame packet (wire value 0).
    Continuation,
    /// First frame of a multi-frame packet (wire value 1).
    Start,
    /// Last frame of a multi-frame packet (wire value 2).
    Stop,
    /// Self-contained packet (wire value 3).
    Whole,
}

impl PacketDelimiter {
    /// The 2-bit wire value of this delimiter.
    pub open spec fn spec_value(self) -> u8 {
        match self {
            PacketDelimiter::Continuation => 0,
            PacketDelimiter::Start => 1,
            PacketDelimiter::Stop => 2,
            PacketDelimiter::Whole => 3,
        }
    }

    /// The 2-bit wire value of this delimiter.
    #[verifier::when_used_as_spec(spec_value)]
    pub fn value(self) -> (r: u8)
        ensures
            r == self.spec_value(),
    {
        match self {
            PacketDelimiter::Continuation => 0,
            PacketDelimiter::Start => 1,
            PacketDelimiter::Stop => 2,
            PacketDelimiter::Whole => 3,
        }
    }
}

/// What kind of frame this is. Only `Data` is emitted; `Helo` is reserved.
#[derive(Debug, Clone, Copy, PartialEq, Eq, Structural)]
pub enum FrameType {
    /// Reserved (wire value 0x00).
    Helo,
    /// Carries payload bytes (wire value 0x05).
    Data,
}

impl FrameType {
    /// The 5-bit wire value of this frame type.
    pub open spec fn spec_value(self) -> u8 {
        match self {
            FrameType::Helo => 0x00,
            FrameType::Data => 0x05,
        }
    }

    /// The 5-bit wire value of this frame type.
    #[verifier::when_used_as_spec(spec_value)]
    pub fn value(self) -> (r: u8)
        ensures
            r == self.spec_value(),
    {
        match self {
            FrameType::Helo => 0x00,
            FrameType::Data => 0x05,
        }
    }
}

/// The flags byte packed from a delimiter value and a frame type value.
pub open spec fn pack_flags(delimiter: u8, frame_type: u8) -> u8 {
    ((delimiter << 5u8) | (frame_type & 0x1Fu8)) as u8
}

/// The 12-byte packet header.
#[derive(Debug, Clone, Copy, PartialEq, Eq, Structural)]
pub struct SproqetPacketHeader {
    /// Must be `SPROQET_MAGIC` on a valid frame.
    pub magic: u8,
    /// Bits 6–5: the delimiter; bits 4–0: the frame type.
    pub flags: u8,
    /// Logical stream ID.
    pub channel_id: u32,
    /// Number of payload bytes that follow the header.
    pub data_size: u16,
    /// Reserved for mesh routing; always 0 in 1:1 links.
    pub route_link_id: u32,
}

/// The 12 bytes that encode `h` on the wire.
pub open spec fn header_bytes(h: SproqetPacketHeader) -> Seq<u8> {
    seq![h.magic, h.flags] + le_bytes_u32(h.channel_id) + le_bytes_u16(h.data_size)
        + le_bytes_u32(h.route_link_id)
}

/// The header decoded from the 12 bytes starting at `s[i]`.
pub open spec fn header_at(s: Seq<u8>, i: int) -> SproqetPacketHeader {
    SproqetPacketHeader {
        magic: s[i],
        flags: s[i + 1],
        channel_id: u32_at(s, i + 2),
        data_size: u16_at(s, i + 6),
        route_link_id: u32_at(s, i + 8),
    }
}

impl SproqetPacketHeader {
    /// The 2-bit delimiter packed in `flags`.
    pub open spec fn spec_delimiter(&self) -> u8 {
        (self.flags >> 5u8) & 0x03u8
    }

    /// The 5-bit frame type packed in `flags`.
    pub open spec fn spec_frame_type(&self) -> u8 {
        self.flags & 0x1Fu8
    }

    /// A header with `magic` set to `SPROQET_MAGIC`, `route_link_id` to 0,
    /// and `flags` packed from `delimiter` and `frame_type`.
    pub fn new(delimiter: PacketDelimiter, frame_type: FrameType, channel_id: u32, data_size: u16) -> (h: Self)
        ensures
            h.magic == SPROQET_MAGIC,
            h.flags == pack_flags(delimiter.spec_value(), frame_type.spec_value()),
            h.channel_id == channel_id,
            h.data_size == data_size,
            h.route_link_id == 0,
            h.spec_delimiter() == delimiter.spec_value(),
            h.spec_frame_type() == frame_type.spec_value(),
    {
        let d = delimiter.value();
        let t = frame_type.value();
        let flags: u8 = (d << 5u8) | (t & 0x1Fu8);
        proof {
            lemma_pack_unpack(d, t);
            assert(t & 0x1Fu8 == t) by (bit_vector)
                requires
                    t < 32,
            ;
        }
        SproqetPacketHeader { magic: SPROQET_MAGIC, flags, channel_id, data_size, route_link_id: 0 }
    }

    /// Unpack the 2-bit delimiter from `flags`.
    #[verifier::when_used_as_spec(spec_delimiter)]
    pub fn delimiter(&self) -> (r: u8)
        ensures
            r == self.spec_delimiter(),
            r < 4,
    {
        let f = self.flags;
        assert((f >> 5u8) & 0x03u8 < 4) by (bit_vector);
        (self.flags >> 5u8) & 0x03u8
    }

    /// Unpack the 5-bit frame type from `flags`.
    #[verifier::when_used_as_spec(spec_frame_type)]
    pub fn frame_type(&self) -> (r: u8)
        ensures
            r == self.spec_frame_type(),
            r < 32,
    {
        let f = self.flags;
        assert(f & 0x1Fu8 < 32) by (bit_vector);
        self.flags & 0x1Fu8
    }

    /// Encode to 12 little-endian bytes.
    pub fn to_bytes(&self) -> (b: [u8; 12])
        ensures
            b@ == header_bytes(*self),
    {
        let c = self.channel_id;
        let d = self.data_size;
        let r = self.route_link_id;
        let b = [
            self.magic,
            self.flags,
            (c & 0xff) as u8,
            ((c >> 8) & 0xff) as u8,
            ((c >> 16) & 0xff) as u8,
            ((c >> 24) & 0xff) as u8,
            (d & 0xff) as u8,
            ((d >> 8) & 0xff) as u8,
            (r & 0xff) as u8,
            ((r >> 8) & 0xff) as u8,
            ((r >> 16) & 0xff) as u8,
            ((r >> 24) & 0xff) as u8,
        ];
        assert(b@ =~= header_bytes(*self));
        b
    }

    /// Decode a 12-byte header. Does not validate `magic` or the frame type.
    pub fn from_bytes(b: &[u8; 12]) -> (h: Self)
        ensures
            h == header_at(b@, 0),
    {
        SproqetPacketHeader {
            magic: b[0],
            flags: b[1],
            channel_id: (b[2] as u32) | ((b[3] as u32) << 8u32) | ((b[4] as u32) << 16u32) | ((
            b[5] as u32) << 24u32),
            data_size: (b[6] as u16) | ((b[7] as u16) << 8u16),
            route_link_id: (b[8] as u32) | ((b[9] as u32) << 8u32) | ((b[10] as u32) << 16u32) | ((
            b[11] as u32) << 24u32),
        }
    }
}

/// Packing a delimiter value and a frame type value into `flags` and
/// unpacking again gives both back.
pub proof fn lemma_pack_unpack(d: u8, t: u8)
    requires
        d < 4,
    ensures
        (pack_flags(d, t) >> 5u8) & 0x03u8 == d,
        pack_flags(d, t) & 0x1Fu8 == t & 0x1Fu8,
{
    assert((((d << 5u8) | (t & 0x1Fu8)) >> 5u8) & 0x03u8 == d) by (bit_vector)
        requires
            d < 4,
    ;
    assert(((d << 5u8) | (t & 0x1Fu8)) & 0x1Fu8 == t & 0x1Fu8) by (bit_vector);
}

/// Where each field of a header sits in its 12 bytes: the magic byte, the
/// flags byte, the channel as a little-endian u32 at offset 2, the data
/// size as a little-endian u16 at offset 6 and the route link as a
/// little-endian u32 at offset 8.
pub proof fn lemma_header_layout(h: SproqetPacketHeader)
    ensures
        header_bytes(h).len() == 12,
        header_bytes(h)[0] == h.magic,
        header_bytes(h)[1] == h.flags,
        u32_at(header_bytes(h), 2) == h.channel_id,
        u16_at(header_bytes(h), 6) == h.data_size,
        u32_at(header_bytes(h), 8) == h.route_link_id,
{
    lemma_header_roundtrip(h);
}

/// Decoding the bytes of an encoded header gives back the header.
pub proof fn lemma_header_roundtrip(h: SproqetPacketHeader)
    ensures
        header_bytes(h).len() == HEADER_SIZE,
        header_at(header_bytes(h), 0) == h,
{
    let s = header_bytes(h);
    assert(s.subrange(2, 6) =~= le_bytes_u32(h.channel_id));
    assert(s.subrange(6, 8) =~= le_bytes_u16(h.data_size));
    assert(s.subrange(8, 12) =~= le_bytes_u32(h.route_link_id));
    lemma_u32_roundtrip(h.channel_id, s, 2);
    lemma_u16_roundtrip(h.data_size, s, 6);
    lemma_u32_roundtrip(h.route_link_id, s, 8);
}

/// Encoding a decoded header gives back the 12 bytes it was decoded from.
pub proof fn lemma_header_bytes_roundtrip(s: Seq<u8>)
    requires
        s.len() == HEADER_SIZE,
    ensures
        header_bytes(header_at(s, 0)) == s,
{
    lemma_u32_bytes_roundtrip(s, 2);
    lemma_u16_bytes_roundtrip(s, 6);
    lemma_u32_bytes_roundtrip(s, 8);
    assert(header_bytes(header_at(s, 0)) =~= s);
}

} // verus!

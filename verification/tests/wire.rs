use sproqet::wire_protocol::{HEADER_SIZE, MTU};
use sproqet::{FrameType, PacketDelimiter, SproqetPacketHeader, SPROQET_MAGIC};

#[test]
fn header_worked_example_bytes() {
    let h = SproqetPacketHeader::new(PacketDelimiter::Whole, FrameType::Data, 1, 5);
    assert_eq!(
        h.to_bytes(),
        [0xF3, 0x65, 0x01, 0x00, 0x00, 0x00, 0x05, 0x00, 0x00, 0x00, 0x00, 0x00]
    );
    assert_eq!(HEADER_SIZE, 12);
    assert_eq!(MTU, 1400);
    assert_eq!(SPROQET_MAGIC, 0xF3);
}

#[test]
fn header_fields_are_little_endian() {
    let h = SproqetPacketHeader {
        magic: 0xAB,
        flags: 0xCD,
        channel_id: 0x0403_0201,
        data_size: 0x0605,
        route_link_id: 0x0A09_0807,
    };
    assert_eq!(h.to_bytes(), [0xAB, 0xCD, 1, 2, 3, 4, 5, 6, 7, 8, 9, 10]);
}

#[test]
fn header_decode_of_encode_is_identity() {
    let h = SproqetPacketHeader {
        magic: SPROQET_MAGIC,
        flags: 0x7F,
        channel_id: 0xDEAD_BEEF,
        data_size: 65535,
        route_link_id: 17,
    };
    assert_eq!(SproqetPacketHeader::from_bytes(&h.to_bytes()), h);
}

#[test]
fn header_encode_of_decode_is_identity() {
    let b = [0x00, 0xFF, 9, 8, 7, 6, 5, 4, 3, 2, 1, 0];
    let h = SproqetPacketHeader::from_bytes(&b);
    assert_eq!(h.magic, 0x00);
    assert_eq!(h.flags, 0xFF);
    assert_eq!(h.channel_id, 0x0607_0809);
    assert_eq!(h.data_size, 0x0405);
    assert_eq!(h.route_link_id, 0x0001_0203);
    assert_eq!(h.to_bytes(), b);
}

#[test]
fn new_packs_delimiter_and_frame_type() {
    for (d, v) in [
        (PacketDelimiter::Continuation, 0u8),
        (PacketDelimiter::Start, 1),
        (PacketDelimiter::Stop, 2),
        (PacketDelimiter::Whole, 3),
    ] {
        assert_eq!(d.value(), v);
        let h = SproqetPacketHeader::new(d, FrameType::Data, 99, 1400);
        assert_eq!(h.magic, SPROQET_MAGIC);
        assert_eq!(h.flags, (v << 5) | 0x05);
        assert_eq!(h.delimiter(), v);
        assert_eq!(h.frame_type(), 0x05);
        assert_eq!(h.channel_id, 99);
        assert_eq!(h.data_size, 1400);
        assert_eq!(h.route_link_id, 0);
        let helo = SproqetPacketHeader::new(d, FrameType::Helo, 0, 0);
        assert_eq!(helo.frame_type(), 0x00);
        assert_eq!(helo.delimiter(), v);
    }
}

#[test]
fn unpacking_ignores_reserved_bit() {
    let h = SproqetPacketHeader { magic: 0xF3, flags: 0xFF, channel_id: 0, data_size: 0, route_link_id: 0 };
    assert_eq!(h.delimiter(), 3);
    assert_eq!(h.frame_type(), 0x1F);
}

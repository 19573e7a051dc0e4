use sproqet::channel::CHANNEL_CAPACITY;
use sproqet::{SproqetChannel, SproqetError, SproqetVariant};

#[test]
fn whole_frame_is_a_packet() {
    let mut c = SproqetChannel::new(3);
    assert_eq!(c.channel_id(), 3);
    assert_eq!(c.receive_buffer(), None);
    c.push_frame(&[1, 2, 3], true, true).unwrap();
    assert_eq!(c.pending(), 1);
    assert_eq!(c.receive_buffer(), Some(vec![1, 2, 3]));
    assert_eq!(c.receive_buffer(), None);
}

#[test]
fn fragments_are_reassembled() {
    let mut c = SproqetChannel::new(1);
    c.push_frame(&[1, 2], true, false).unwrap();
    c.push_frame(&[3], false, false).unwrap();
    assert_eq!(c.pending(), 0);
    c.push_frame(&[4, 5], false, true).unwrap();
    assert_eq!(c.receive_buffer(), Some(vec![1, 2, 3, 4, 5]));
}

#[test]
fn start_discards_an_unfinished_packet() {
    let mut c = SproqetChannel::new(1);
    c.push_frame(&[9, 9], true, false).unwrap();
    c.push_frame(&[1], true, false).unwrap();
    c.push_frame(&[2], false, true).unwrap();
    assert_eq!(c.receive_buffer(), Some(vec![1, 2]));
}

#[test]
fn packets_come_out_in_arrival_order() {
    let mut c = SproqetChannel::new(1);
    for i in 0..10u8 {
        c.push_frame(&[i], true, true).unwrap();
    }
    for i in 0..10u8 {
        assert_eq!(c.receive_buffer(), Some(vec![i]));
    }
}

#[test]
fn full_channel_hands_packet_back() {
    let mut c = SproqetChannel::new(1);
    assert_eq!(CHANNEL_CAPACITY, 512);
    for i in 0..CHANNEL_CAPACITY {
        c.push_frame(&(i as u32).to_le_bytes(), true, true).unwrap();
    }
    assert_eq!(c.push_frame(&[7], true, false), Ok(()));
    assert_eq!(c.push_frame(&[8], false, true), Err(vec![7, 8]));
    assert_eq!(c.pending(), CHANNEL_CAPACITY);
    assert_eq!(c.try_deliver(vec![7, 8]), Err(vec![7, 8]));
    assert_eq!(c.receive_buffer(), Some(0u32.to_le_bytes().to_vec()));
    assert_eq!(c.try_deliver(vec![7, 8]), Ok(()));
    for i in 1..CHANNEL_CAPACITY {
        assert_eq!(c.receive_buffer(), Some((i as u32).to_le_bytes().to_vec()));
    }
    assert_eq!(c.receive_buffer(), Some(vec![7, 8]));
}

#[test]
fn receive_variant_decodes_and_consumes() {
    let mut c = SproqetChannel::new(2);
    assert!(c.receive_variant().is_none());
    c.push_frame(&[0xFF], true, true).unwrap();
    c.push_frame(&[0x08, 0x2A, 0, 0, 0], true, true).unwrap();
    assert!(matches!(c.receive_variant(), Some(Err(SproqetError::UnknownTypeId(0xFF)))));
    assert!(matches!(c.receive_variant(), Some(Ok(SproqetVariant::Uint32(42)))));
    assert!(c.receive_variant().is_none());
}

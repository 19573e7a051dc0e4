use sproqet::framing::{plan_frames, FrameDecoder};
use sproqet::wire_protocol::MTU;
use sproqet::{FrameType, PacketDelimiter, SproqetChannel, SproqetNDArray, SproqetPacketHeader, SproqetVariant, SPROQET_MAGIC};

/// The bytes a sender writes for `data` on `channel_id`.
fn wire_bytes(channel_id: u32, data: &[u8]) -> Vec<u8> {
    let mut out = Vec::new();
    for f in plan_frames(channel_id, data.len()) {
        out.extend_from_slice(&f.header.to_bytes());
        out.extend_from_slice(&data[f.start..f.end]);
    }
    out
}

/// A deterministic sequence of fragment sizes between 16 and 128.
fn fragment_sizes(seed: u64) -> impl Iterator<Item = usize> {
    let mut state = seed;
    std::iter::from_fn(move || {
        state = state.wrapping_mul(6364136223846793005).wrapping_add(1442695040888963407);
        Some(16 + ((state >> 33) % 113) as usize)
    })
}

/// Feed `bytes` to a decoder in fragments and route every frame to its channel.
fn receive(bytes: &[u8], channels: &mut Vec<SproqetChannel>) {
    let mut decoder = FrameDecoder::new();
    let mut pos = 0;
    let mut sizes = fragment_sizes(42);
    while pos < bytes.len() {
        let n = std::cmp::min(sizes.next().unwrap(), bytes.len() - pos);
        decoder.feed(&bytes[pos..pos + n]);
        pos += n;
        while let Some(frame) = decoder.next_frame() {
            let id = frame.header.channel_id;
            let idx = match channels.iter().position(|c| c.channel_id() == id) {
                Some(i) => i,
                None => {
                    channels.push(SproqetChannel::new(id));
                    channels.len() - 1
                }
            };
            channels[idx].push_frame(&frame.payload, frame.is_start(), frame.is_stop()).unwrap();
        }
    }
}

fn channel(channels: &mut Vec<SproqetChannel>, id: u32) -> &mut SproqetChannel {
    channels.iter_mut().find(|c| c.channel_id() == id).unwrap()
}

#[test]
fn plan_of_small_and_empty_packets() {
    for len in [0usize, 1, 5, MTU] {
        let plan = plan_frames(4, len);
        assert_eq!(plan.len(), 1);
        assert_eq!(plan[0].start, 0);
        assert_eq!(plan[0].end, len);
        assert_eq!(plan[0].header, SproqetPacketHeader::new(PacketDelimiter::Whole, FrameType::Data, 4, len as u16));
    }
}

#[test]
fn plan_of_large_packets() {
    let plan = plan_frames(2, MTU + 1);
    assert_eq!(plan.len(), 2);
    assert_eq!(plan[0].header.delimiter(), PacketDelimiter::Start.value());
    assert_eq!((plan[0].start, plan[0].end), (0, MTU));
    assert_eq!(plan[1].header.delimiter(), PacketDelimiter::Stop.value());
    assert_eq!((plan[1].start, plan[1].end, plan[1].header.data_size), (MTU, MTU + 1, 1));

    let plan = plan_frames(2, 10_000);
    assert_eq!(plan.len(), 8);
    assert_eq!(plan[0].header.delimiter(), 1);
    for f in &plan[1..7] {
        assert_eq!(f.header.delimiter(), 0);
        assert_eq!(f.header.data_size as usize, MTU);
    }
    assert_eq!(plan[7].header.delimiter(), 2);
    assert_eq!(plan[7].header.data_size, 200);
    assert_eq!(plan[7].end, 10_000);
}

#[test]
fn test_stream_fragmentation() {
    let large: Vec<u8> = (0u32..10_000).map(|i| (i % 256) as u8).collect();
    let mut channels = Vec::new();
    receive(&wire_bytes(1, &large), &mut channels);
    let received = channel(&mut channels, 1).receive_buffer().expect("did not receive within timeout");
    assert_eq!(received.len(), 10_000);
    assert_eq!(received, large);
}

#[test]
fn test_header_resync_after_garbage_byte() {
    let payload = vec![0x08, 0x2A, 0x00, 0x00, 0x00];
    let header = SproqetPacketHeader::new(PacketDelimiter::Whole, FrameType::Data, 7, payload.len() as u16);
    let mut bytes = vec![0x00];
    bytes.extend_from_slice(&header.to_bytes());
    bytes.extend_from_slice(&payload);
    let mut channels = Vec::new();
    receive(&bytes, &mut channels);
    match channel(&mut channels, 7).receive_variant() {
        Some(Ok(SproqetVariant::Uint32(v))) => assert_eq!(v, 42),
        other => panic!("expected Uint32(42), got {other:?}"),
    }
}

#[test]
fn test_unknown_frame_type_payload_is_skipped() {
    let unknown_payload = [0xAA, 0xBB, 0xCC];
    let unknown_header = SproqetPacketHeader {
        magic: SPROQET_MAGIC,
        flags: ((PacketDelimiter::Whole.value()) << 5) | 0x1F,
        channel_id: 9,
        data_size: unknown_payload.len() as u16,
        route_link_id: 0,
    };
    let mut bytes = unknown_header.to_bytes().to_vec();
    bytes.extend_from_slice(&unknown_payload);
    let payload = vec![0x08, 0x63, 0x00, 0x00, 0x00];
    let header = SproqetPacketHeader::new(PacketDelimiter::Whole, FrameType::Data, 9, payload.len() as u16);
    bytes.extend_from_slice(&header.to_bytes());
    bytes.extend_from_slice(&payload);
    let mut channels = Vec::new();
    receive(&bytes, &mut channels);
    match channel(&mut channels, 9).receive_variant() {
        Some(Ok(SproqetVariant::Uint32(v))) => assert_eq!(v, 99),
        other => panic!("expected Uint32(99), got {other:?}"),
    }
    assert!(channel(&mut channels, 9).receive_variant().is_none());
}

#[test]
fn test_multiplexing_isolation() {
    let mut streams: Vec<(u32, Vec<u8>)> = Vec::new();
    for &(ch, base) in &[(10u32, 0u32), (10, 10_000), (20, 20_000), (20, 30_000)] {
        let mut bytes = Vec::new();
        for i in 0..100u32 {
            let mut buf = Vec::new();
            SproqetVariant::Uint32(base + i).serialize(&mut buf);
            bytes.extend_from_slice(&wire_bytes(ch, &buf));
        }
        streams.push((ch, bytes));
    }
    // Interleave whole frames (17 bytes each) of the four senders.
    let mut wire = Vec::new();
    for i in 0..100 {
        for (_, bytes) in &streams {
            wire.extend_from_slice(&bytes[i * 17..(i + 1) * 17]);
        }
    }
    let mut channels = Vec::new();
    receive(&wire, &mut channels);
    for ch in [10u32, 20] {
        let c = channel(&mut channels, ch);
        let mut count = 0;
        while let Some(Ok(SproqetVariant::Uint32(v))) = c.receive_variant() {
            assert!(if ch == 10 { v < 20_000 } else { v >= 20_000 });
            count += 1;
        }
        assert_eq!(count, 200);
    }
}

#[test]
fn interleaved_large_packets_reassemble_per_channel() {
    let a: Vec<u8> = (0..5000u32).map(|i| (i % 251) as u8).collect();
    let b: Vec<u8> = (0..3000u32).map(|i| (i % 7) as u8).collect();
    let plan_a = plan_frames(1, a.len());
    let plan_b = plan_frames(2, b.len());
    let mut wire = Vec::new();
    for i in 0..std::cmp::max(plan_a.len(), plan_b.len()) {
        if let Some(f) = plan_a.get(i) {
            wire.extend_from_slice(&f.header.to_bytes());
            wire.extend_from_slice(&a[f.start..f.end]);
        }
        if let Some(f) = plan_b.get(i) {
            wire.extend_from_slice(&f.header.to_bytes());
            wire.extend_from_slice(&b[f.start..f.end]);
        }
    }
    let mut channels = Vec::new();
    receive(&wire, &mut channels);
    assert_eq!(channel(&mut channels, 1).receive_buffer(), Some(a));
    assert_eq!(channel(&mut channels, 2).receive_buffer(), Some(b));
}

#[test]
fn decoder_waits_for_a_whole_frame() {
    let bytes = wire_bytes(5, &[1, 2, 3]);
    let mut d = FrameDecoder::new();
    d.feed(&bytes[..11]);
    assert!(d.next_frame().is_none());
    d.feed(&bytes[11..14]);
    assert!(d.next_frame().is_none());
    d.feed(&bytes[14..]);
    let f = d.next_frame().unwrap();
    assert_eq!(f.header.channel_id, 5);
    assert_eq!(f.payload, vec![1, 2, 3]);
    assert!(f.is_start() && f.is_stop());
    assert!(d.next_frame().is_none());
}

#[test]
fn test_ndarray_passthrough() {
    let nd = SproqetNDArray {
        shape: vec![1920, 1080, 3],
        data_type: "uint8".to_string(),
        data: vec![0x55; 1920 * 1080 * 3],
    };
    let mut buf = Vec::new();
    SproqetVariant::NDArray(nd).serialize(&mut buf);
    let wire = wire_bytes(5, &buf);
    let mut decoder = FrameDecoder::new();
    let mut chan = SproqetChannel::new(5);
    for chunk in wire.chunks(4096) {
        decoder.feed(chunk);
        while let Some(f) = decoder.next_frame() {
            chan.push_frame(&f.payload, f.is_start(), f.is_stop()).unwrap();
        }
    }
    match chan.receive_variant().expect("did not receive NDArray within timeout") {
        Ok(SproqetVariant::NDArray(got)) => {
            assert_eq!(got.shape, vec![1920, 1080, 3]);
            assert_eq!(got.data_type, "uint8");
            assert_eq!(got.data.len(), 1920 * 1080 * 3);
            assert!(got.data.iter().all(|&b| b == 0x55));
        }
        other => panic!("expected NDArray, got {other:?}"),
    }
}

#[test]
fn packets_arrive_in_send_order() {
    let packets: Vec<Vec<u8>> = vec![vec![1; 3000], vec![2; 10], vec![3; 1401], vec![4]];
    let mut wire = Vec::new();
    for p in &packets {
        wire.extend_from_slice(&wire_bytes(8, p));
    }
    let mut channels = Vec::new();
    receive(&wire, &mut channels);
    let c = channel(&mut channels, 8);
    for p in &packets {
        assert_eq!(c.receive_buffer().as_ref(), Some(p));
    }
    assert_eq!(c.receive_buffer(), None);
}

#[test]
fn empty_packet_sends_one_whole_frame() {
    assert_eq!(
        wire_bytes(1, &[]),
        vec![0xF3, 0x65, 0x01, 0x00, 0x00, 0x00, 0x00, 0x00, 0x00, 0x00, 0x00, 0x00]
    );
    let mut channels = Vec::new();
    receive(&wire_bytes(3, &[]), &mut channels);
    assert_eq!(channels.len(), 1);
    assert_eq!(channels[0].channel_id(), 3);
    assert_eq!(channels[0].receive_buffer(), Some(vec![]));
    assert_eq!(channels[0].receive_buffer(), None);
}

fn frames_of(pieces: &[&[u8]]) -> Vec<(u32, u8, Vec<u8>)> {
    let mut d = FrameDecoder::new();
    let mut out = Vec::new();
    for p in pieces {
        d.feed(p);
        while let Some(f) = d.next_frame() {
            out.push((f.header.channel_id, f.header.delimiter(), f.payload));
        }
    }
    out
}

#[test]
fn decoding_in_pieces_matches_whole() {
    let mut wire = vec![0x01, 0x02];
    wire.extend_from_slice(&wire_bytes(1, &vec![7u8; 3000]));
    wire.push(0x00);
    wire.extend_from_slice(&wire_bytes(2, &[1, 2, 3]));
    let whole = frames_of(&[&wire]);
    assert_eq!(whole.len(), 4);
    let bytewise: Vec<&[u8]> = wire.chunks(1).collect();
    assert_eq!(frames_of(&bytewise), whole);
    let odd: Vec<&[u8]> = wire.chunks(13).collect();
    assert_eq!(frames_of(&odd), whole);
}

/// The frames a sender writes for `data` on `channel_id`, each as its own byte string.
fn frame_bytes(channel_id: u32, data: &[u8]) -> Vec<Vec<u8>> {
    plan_frames(channel_id, data.len())
        .iter()
        .map(|f| {
            let mut out = f.header.to_bytes().to_vec();
            out.extend_from_slice(&data[f.start..f.end]);
            out
        })
        .collect()
}

#[test]
fn interleaved_fragmented_packets_reach_their_channels() {
    let a: Vec<u8> = (0..3000u32).map(|i| (i % 251) as u8).collect();
    let b: Vec<u8> = (0..2900u32).map(|i| (i % 13) as u8).collect();
    let c: Vec<u8> = vec![9; 5];
    let fa = frame_bytes(1, &a);
    let fb = frame_bytes(2, &b);
    let fc = frame_bytes(1, &c);
    assert_eq!((fa.len(), fb.len(), fc.len()), (3, 3, 1));
    let order: [&Vec<u8>; 7] = [&fa[0], &fb[0], &fa[1], &fb[1], &fb[2], &fa[2], &fc[0]];
    let wire: Vec<u8> = order.iter().flat_map(|f| f.iter().copied()).collect();
    let mut channels = Vec::new();
    receive(&wire, &mut channels);
    assert_eq!(channel(&mut channels, 1).receive_buffer(), Some(a));
    assert_eq!(channel(&mut channels, 1).receive_buffer(), Some(c));
    assert_eq!(channel(&mut channels, 1).receive_buffer(), None);
    assert_eq!(channel(&mut channels, 2).receive_buffer(), Some(b));
    assert_eq!(channel(&mut channels, 2).receive_buffer(), None);
}

/// One data frame as any peer may write it.
fn raw_frame(channel_id: u32, delimiter: PacketDelimiter, payload: &[u8]) -> Vec<u8> {
    let mut out = SproqetPacketHeader::new(delimiter, FrameType::Data, channel_id, payload.len() as u16)
        .to_bytes()
        .to_vec();
    out.extend_from_slice(payload);
    out
}

#[test]
fn packets_cut_by_another_peer_reassemble() {
    let wire: Vec<u8> = [
        raw_frame(5, PacketDelimiter::Start, &[1, 2, 3]),
        raw_frame(6, PacketDelimiter::Whole, &[42]),
        raw_frame(5, PacketDelimiter::Continuation, &[]),
        raw_frame(5, PacketDelimiter::Continuation, &[4]),
        raw_frame(6, PacketDelimiter::Start, &[7]),
        raw_frame(5, PacketDelimiter::Stop, &[5, 6]),
        raw_frame(6, PacketDelimiter::Stop, &[8]),
    ]
    .concat();
    let mut channels = Vec::new();
    receive(&wire, &mut channels);
    assert_eq!(channel(&mut channels, 5).receive_buffer(), Some(vec![1, 2, 3, 4, 5, 6]));
    assert_eq!(channel(&mut channels, 5).receive_buffer(), None);
    assert_eq!(channel(&mut channels, 6).receive_buffer(), Some(vec![42]));
    assert_eq!(channel(&mut channels, 6).receive_buffer(), Some(vec![7, 8]));
    assert_eq!(channel(&mut channels, 6).receive_buffer(), None);
}

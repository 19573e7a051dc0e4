# sproqet

A multiplexed point-to-point binary protocol: a 12-byte little-endian
frame header, packets cut into frames of at most 1400 bytes and reassembled
per channel, a self-describing value type with a deterministic wire format,
and a bounded FIFO ring. The library under `src/` is verified with Verus;
`app/` holds the threads, sockets and locks around it.

## Layout

- `src/wire_protocol.rs` — the header, its encoding and decoding.
- `src/framing.rs` — the frames that carry a packet, and a decoder that
  recovers data frames from a byte stream (skipping bytes that cannot start
  a header and frames of other types).
- `src/channel.rs` — per-channel reassembly and a 512-slot packet FIFO.
- `src/variant.rs`, `src/deserialize.rs` — `SproqetVariant`, its model
  `Value`, the two map types (entries kept in ascending key order by a
  type invariant), the encoder and the decoder, each stated against a
  specification of the wire format. The decoder keeps its own stack of
  open containers rather than recursing, so nesting depth costs heap, not
  call stack.
- `src/keys.rs` — key orders and sorted-map insertion; sorted entries are
  fixed by what they hold, so insertion order does not matter.
- `src/roundtrip.rs`, `src/sorted.rs`, `src/delivery.rs`,
  `src/multiplex.rs` — laws: decoding an encoded value gives it back;
  equal maps encode identically; decoded maps are sorted; what a channel
  receives is what was sent on it, in order, however the frames of
  different channels interleave on the wire and however a conforming
  sender cut its packets into `Start`/`Continuation`/`Stop` runs.
- `src/fifo.rs` — a bounded FIFO ring.
- `app/` — `SproqetLink` (read thread, multiplexed writers), thread-safe
  channel handles with back-pressure, the producer/consumer pair that
  shares a ring between two threads with blocking push and pop, the
  transport traits and their TCP/Unix implementations, and an error type
  implementing `std::error::Error`.

Floating-point values are held by the library as their IEEE-754 bit
patterns; `app/variant.rs` converts.

//! Sproqet: a multiplexed point-to-point binary protocol.
//!
//! - [`wire_protocol`]: the 12-byte packet header.
//! - [`framing`]: cutting packets into frames, and recovering frames from a
//!   byte stream.
//! - [`channel`]: per-channel reassembly and a bounded packet FIFO.
//! - [`variant`], [`deserialize`]: the self-describing value type and its
//!   wire format; [`roundtrip`] and [`delivery`] hold the laws that tie
//!   encoding to decoding.
//! - [`layout`]: where each field of an encoded value sits in its bytes.
//! - [`multiplex`]: channels sharing one stream.
//! - [`fifo`]: a bounded FIFO ring.
use vstd::prelude::*;

pub mod bytes;
pub mod channel;
pub mod delivery;
pub mod deserialize;
pub mod error;
pub mod fifo;
pub mod framing;
pub mod keys;
pub mod layout;
pub mod multiplex;
pub mod roundtrip;
pub mod sorted;
pub mod variant;
pub mod wire_protocol;

pub use channel::SproqetChannel;
pub use error::SproqetError;
pub use variant::{SproqetNDArray, SproqetStringMap, SproqetUintMap, SproqetVariant};
pub use wire_protocol::{FrameType, PacketDelimiter, SproqetPacketHeader, SPROQET_MAGIC};

verus! {

} // verus!

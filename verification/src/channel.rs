//! Per-channel frame assembly and delivery.
//!
//! Frame payloads are appended to an assembly buffer; a frame marked
//! "start" first clears it, and a frame marked "stop" turns its contents
//! into a completed packet. Completed packets wait in a bounded FIFO of
//! [`CHANNEL_CAPACITY`] slots until the application takes them.
use vstd::prelude::*;

use std::collections::VecDeque;

use crate::bytes::append_bytes;
use crate::deserialize::deserialize_spec;
use crate::error::SproqetError;
use crate::variant::{SproqetVariant, Value};

verus! {

/// Number of completed packets a channel holds before delivery must wait.
pub const CHANNEL_CAPACITY: usize = 512;

/// The abstract state of a channel.
pub struct ChannelState {
    /// The channel's numeric ID.
    pub id: u32,
    /// Bytes of the packet being assembled.
    pub assembly: Seq<u8>,
    /// Completed packets, oldest first.
    pub packets: Seq<Seq<u8>>,
}

/// The assembly buffer after a frame carrying `data` arrives.
pub open spec fn assemble(assembly: Seq<u8>, data: Seq<u8>, is_start: bool) -> Seq<u8> {
    (if is_start { Seq::empty() } else { assembly }) + data
}

/// One logical stream of a link: an assembly buffer and a bounded FIFO of
/// completed packets.
pub struct SproqetChannel {
    channel_id: u32,
    assembly: Vec<u8>,
    packets: VecDeque<Vec<u8>>,
}

impl View for SproqetChannel {
    type V = ChannelState;

    closed spec fn view(&self) -> ChannelState {
        ChannelState {
            id: self.channel_id,
            assembly: self.assembly@,
            packets: self.packets@.map_values(|p: Vec<u8>| p@),
        }
    }
}

impl SproqetChannel {
    #[verifier::type_invariant]
    spec fn bounded(&self) -> bool {
        self.packets@.len() <= CHANNEL_CAPACITY
    }

    /// A fresh channel with an empty assembly buffer and no packets.
    pub fn new(channel_id: u32) -> (c: Self)
        ensures
            c@.id == channel_id,
            c@.assembly == Seq::<u8>::empty(),
            c@.packets == Seq::<Seq<u8>>::empty(),
    {
        let c = SproqetChannel { channel_id, assembly: Vec::new(), packets: VecDeque::new() };
        assert(c@.packets =~= Seq::<Seq<u8>>::empty());
        c
    }

    /// The numeric ID this channel was created with.
    pub fn channel_id(&self) -> (id: u32)
        ensures
            id == self@.id,
    {
        self.channel_id
    }

    /// The number of completed packets waiting.
    pub fn pending(&self) -> (n: usize)
        ensures
            n == self@.packets.len(),
            n <= CHANNEL_CAPACITY,
    {
        proof {
            use_type_invariant(self);
        }
        self.packets.len()
    }

    /// Queue a completed packet if a slot is free; otherwise hand it back.
    pub fn try_deliver(&mut self, packet: Vec<u8>) -> (r: Result<(), Vec<u8>>)
        ensures
            final(self)@.id == old(self)@.id,
            final(self)@.assembly == old(self)@.assembly,
            old(self)@.packets.len() < CHANNEL_CAPACITY ==> r is Ok && final(self)@.packets
                == old(self)@.packets.push(packet@),
            old(self)@.packets.len() >= CHANNEL_CAPACITY ==> r == Err::<(), Vec<u8>>(packet)
                && final(self)@.packets == old(self)@.packets,
    {
        proof {
            use_type_invariant(&*self);
        }
        if self.packets.len() < CHANNEL_CAPACITY {
            let ghost p = packet;
            let mut q: VecDeque<Vec<u8>> = VecDeque::new();
            std::mem::swap(&mut q, &mut self.packets);
            q.push_back(packet);
            self.packets = q;
            assert(self@.packets =~= old(self)@.packets.push(p@));
            Ok(())
        } else {
            Err(packet)
        }
    }

    /// Deliver a frame fragment. A frame marked `is_start` first clears the
    /// assembly buffer; its payload is then appended; a frame marked
    /// `is_stop` completes the packet, which is queued if a slot is free
    /// and handed back otherwise, to be delivered with
    /// [`try_deliver`](Self::try_deliver) once the application has taken
    /// a packet.
    pub fn push_frame(&mut self, data: &[u8], is_start: bool, is_stop: bool) -> (r: Result<(), Vec<u8>>)
        ensures
            final(self)@.id == old(self)@.id,
            !is_stop ==> r is Ok && final(self)@.assembly == assemble(old(self)@.assembly, data@, is_start)
                && final(self)@.packets == old(self)@.packets,
            is_stop ==> final(self)@.assembly == Seq::<u8>::empty(),
            is_stop && old(self)@.packets.len() < CHANNEL_CAPACITY ==> r is Ok && final(self)@.packets
                == old(self)@.packets.push(assemble(old(self)@.assembly, data@, is_start)),
            is_stop && old(self)@.packets.len() >= CHANNEL_CAPACITY ==> (r matches Err(p) && p@
                == assemble(old(self)@.assembly, data@, is_start)) && final(self)@.packets == old(self)@.packets,
    {
        proof {
            use_type_invariant(&*self);
        }
        let mut buf: Vec<u8> = Vec::new();
        std::mem::swap(&mut buf, &mut self.assembly);
        if is_start {
            buf.clear();
        }
        append_bytes(&mut buf, data);
        assert(buf@ =~= assemble(old(self)@.assembly, data@, is_start));
        if is_stop {
            assert(self@.assembly =~= Seq::<u8>::empty());
            self.try_deliver(buf)
        } else {
            self.assembly = buf;
            Ok(())
        }
    }

    /// Take the oldest completed packet, if any, as raw bytes.
    pub fn receive_buffer(&mut self) -> (r: Option<Vec<u8>>)
        ensures
            final(self)@.id == old(self)@.id,
            final(self)@.assembly == old(self)@.assembly,
            old(self)@.packets.len() == 0 ==> r is None && final(self)@.packets == old(self)@.packets,
            old(self)@.packets.len() > 0 ==> (r matches Some(p) && p@ == old(self)@.packets[0])
                && final(self)@.packets == old(self)@.packets.drop_first(),
    {
        proof {
            use_type_invariant(&*self);
        }
        let mut q: VecDeque<Vec<u8>> = VecDeque::new();
        std::mem::swap(&mut q, &mut self.packets);
        let r = q.pop_front();
        self.packets = q;
        assert(self@.packets =~= if old(self)@.packets.len() > 0 {
            old(self)@.packets.drop_first()
        } else {
            old(self)@.packets
        });
        r
    }

    /// Take the oldest completed packet, if any, and decode it as a
    /// variant. A malformed packet is consumed and its error returned.
    pub fn receive_variant(&mut self) -> (r: Option<Result<SproqetVariant, SproqetError>>)
        ensures
            final(self)@.id == old(self)@.id,
            final(self)@.assembly == old(self)@.assembly,
            old(self)@.packets.len() == 0 ==> r is None && final(self)@.packets == old(self)@.packets,
            old(self)@.packets.len() > 0 ==> final(self)@.packets == old(self)@.packets.drop_first()
                && match r {
                Some(Ok(v)) => deserialize_spec(old(self)@.packets[0]) == Ok::<Value, SproqetError>(
                    v.model(),
                ),
                Some(Err(e)) => deserialize_spec(old(self)@.packets[0]) == Err::<Value, SproqetError>(
                    e,
                ),
                None => false,
            },
    {
        match self.receive_buffer() {
            Some(buf) => Some(SproqetVariant::deserialize(buf.as_slice())),
            None => None,
        }
    }
}

} // verus!

//! Packets that carry a sequence number.

use vstd::prelude::*;

verus! {

/// A packet that can be reordered by its sequence number.
pub trait Packet {
    /// The sequence number that the packet carries.
    spec fn sequence(&self) -> u16;

    /// Reads the packet's sequence number.
    fn sequence_number(&self) -> (n: u16)
        ensures
            n == self.sequence(),
    ;
}

/// One encoded audio frame on its way between peers.
#[derive(Clone, Debug, PartialEq, Eq)]
pub struct AudioPacket {
    /// The peer the frame comes from; `None` while it has not left this host.
    pub id: Option<String>,
    /// Position of the frame in its stream.
    pub seq: u16,
    /// Sample rate the frame was encoded at.
    pub sample_rate: u32,
    /// The encoded bytes.
    pub packet: Vec<u8>,
}

impl Packet for AudioPacket {
    open spec fn sequence(&self) -> u16 {
        self.seq
    }

    fn sequence_number(&self) -> (n: u16) {
        self.seq
    }
}

/// A bare sequence-numbered packet.
#[derive(Clone, Copy, Debug, PartialEq, Eq)]
pub struct OpusPacket {
    /// Position of the packet in its stream.
    pub seq: u16,
}

impl Packet for OpusPacket {
    open spec fn sequence(&self) -> u16 {
        self.seq
    }

    fn sequence_number(&self) -> (n: u16) {
        self.seq
    }
}

} // verus!

//! The encoding engine's bookkeeping: numbers the encoded frames of the
//! local stream and wraps them into packets.

use vstd::prelude::*;

use crate::packet::AudioPacket;
use crate::sequence::{lemma_advance_is_modular, next_sequence, seq_advance, seq_succ};

verus! {

/// Calls `rand::rng().random::<u16>()`: a value drawn from the thread-local
/// random generator. Nothing is promised of which value comes back.
#[verifier::external_body]
fn random_u16() -> u16 {
    rand::Rng::random::<u16>(&mut rand::rng())
}

/// Packing one encoded frame takes the stream from `before` to `after` and
/// yields `packet`: the number advances by one and the packet carries the
/// new number and the stream's rate.
pub open spec fn packs_frame(before: EncodingEngine, after: EncodingEngine, packet: AudioPacket) -> bool {
    &&& after.current() == seq_succ(before.current())
    &&& after.rate() == before.rate()
    &&& packet.id is None
    &&& packet.seq == seq_succ(before.current())
    &&& packet.sample_rate == before.rate()
}

/// Numbering state of the local stream.
pub struct EncodingEngine {
    current_seq: u16,
    sample_rate: u32,
}

impl EncodingEngine {
    /// Sequence number of the last frame packed (or the starting point).
    pub closed spec fn current(&self) -> u16 {
        self.current_seq
    }

    /// Sample rate the stream is encoded at.
    pub closed spec fn rate(&self) -> u32 {
        self.sample_rate
    }

    /// A stream at `sample_rate` whose numbering starts at a random point.
    pub fn create(sample_rate: u32) -> (engine: Self)
        ensures
            engine.rate() == sample_rate,
    {
        let start = random_u16();
        Self::with_start_sequence(sample_rate, start)
    }

    /// A stream at `sample_rate` whose first frame gets the number after `start`.
    pub fn with_start_sequence(sample_rate: u32, start: u16) -> (engine: Self)
        ensures
            engine.rate() == sample_rate,
            engine.current() == start,
    {
        EncodingEngine { current_seq: start, sample_rate }
    }

    /// Sequence number of the last frame packed.
    pub fn current_sequence(&self) -> (s: u16)
        ensures
            s == self.current(),
    {
        self.current_seq
    }

    /// Sample rate the stream is encoded at.
    pub fn get_sample_rate(&self) -> (r: u32)
        ensures
            r == self.rate(),
    {
        self.sample_rate
    }

    /// Packs one encoded frame: it gets the next sequence number, the
    /// stream's sample rate and no client id.
    pub fn frame_encoded(&mut self, encoded: Vec<u8>) -> (packet: AudioPacket)
        ensures
            final(self).current() == seq_succ(old(self).current()),
            final(self).rate() == old(self).rate(),
            packs_frame(*old(self), *final(self), packet),
            packet == (AudioPacket {
                id: None,
                seq: seq_succ(old(self).current()),
                sample_rate: old(self).rate(),
                packet: encoded,
            }),
    {
        self.current_seq = next_sequence(self.current_seq);
        AudioPacket { id: None, seq: self.current_seq, sample_rate: self.sample_rate, packet: encoded }
    }
}

/// Over a run of packed frames, each packet carries the start number
/// advanced once more than the packets before it.
proof fn lemma_frames_advance(engines: Seq<EncodingEngine>, packets: Seq<AudioPacket>)
    requires
        engines.len() == packets.len() + 1,
        forall|i: int|
            0 <= i < packets.len() ==> packs_frame(
                #[trigger] engines[i],
                engines[i + 1],
                packets[i],
            ),
    ensures
        forall|i: int|
            0 <= i <= packets.len() ==> (#[trigger] engines[i]).current() == seq_advance(
                engines[0].current(),
                i as nat,
            ) && engines[i].rate() == engines[0].rate(),
    decreases packets.len(),
{
    if packets.len() > 0 {
        let n = packets.len() - 1;
        let e0 = engines.drop_last();
        let p0 = packets.drop_last();
        assert forall|i: int| 0 <= i < p0.len() implies packs_frame(
            #[trigger] e0[i],
            e0[i + 1],
            p0[i],
        ) by {
            assert(e0[i] == engines[i]);
            assert(e0[i + 1] == engines[i + 1]);
        }
        lemma_frames_advance(e0, p0);
        assert forall|i: int| 0 <= i <= packets.len() implies (#[trigger] engines[i]).current()
            == seq_advance(engines[0].current(), i as nat) && engines[i].rate()
            == engines[0].rate() by {
            assert(e0[0] == engines[0]);
            if i <= n {
                assert(e0[i] == engines[i]);
            } else {
                assert(e0[n] == engines[n]);
                assert(packs_frame(engines[n], engines[n + 1], packets[n]));
            }
        }
    }
}

/// Over any run of packed frames from a start number `r`, the `i`-th packet
/// (counting from 0) carries `(r + i + 1) mod 65536` and the stream's rate,
/// and after `k` frames the stream stands at `(r + k) mod 65536`.
pub proof fn lemma_frames_numbered_from_start(
    engines: Seq<EncodingEngine>,
    packets: Seq<AudioPacket>,
)
    requires
        engines.len() == packets.len() + 1,
        forall|i: int|
            0 <= i < packets.len() ==> packs_frame(
                #[trigger] engines[i],
                engines[i + 1],
                packets[i],
            ),
    ensures
        engines.last().current() == seq_advance(engines[0].current(), packets.len()),
        engines.last().current() as int == (engines[0].current() as int + packets.len()) % 65536,
        forall|i: int|
            0 <= i < packets.len() ==> (#[trigger] packets[i]).seq as int == (
            engines[0].current() as int + i + 1) % 65536 && packets[i].sample_rate
                == engines[0].rate(),
{
    let r = engines[0].current();
    lemma_frames_advance(engines, packets);
    assert(engines.last() == engines[packets.len() as int]);
    lemma_advance_is_modular(r, packets.len());
    assert forall|i: int| 0 <= i < packets.len() implies (#[trigger] packets[i]).seq as int == (
        r as int + i + 1) % 65536 && packets[i].sample_rate == engines[0].rate() by {
        assert(packs_frame(engines[i], engines[i + 1], packets[i]));
        assert(engines[i + 1].current() == seq_advance(r, (i + 1) as nat));
        lemma_advance_is_modular(r, (i + 1) as nat);
    }
}

} // verus!

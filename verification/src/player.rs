//! The playing engine: one jitter buffer per remote client, fed by incoming
//! packets and drained at a steady playback interval.

use vstd::prelude::*;

use crate::jitter::{JitterBuffer, JitterState, pop_spec, push_spec, lemma_consecutive_packets_in_order};
use crate::sequence::seq_succ;
use crate::packet::AudioPacket;
use crate::registry::Registry;

verus! {

/// Number of packets each client's jitter buffer holds.
pub const BUFFERED_PACKETS: u8 = 8;

/// Playback state of one client.
pub struct Client {
    buffer: JitterBuffer<AudioPacket, BUFFERED_PACKETS>,
    decoder_rate: Option<u32>,
}

/// The abstract playback state of one client.
pub struct ClientState {
    /// Its jitter buffer.
    pub buffer: JitterState<AudioPacket>,
    /// The sample rate its decoder was created with, once one exists.
    pub decoder_rate: Option<u32>,
}

impl View for Client {
    type V = ClientState;

    closed spec fn view(&self) -> ClientState {
        ClientState { buffer: self.buffer@, decoder_rate: self.decoder_rate }
    }
}

impl Client {
    /// The client's buffer is well formed.
    pub closed spec fn wf(&self) -> bool {
        self.buffer.wf()
    }
}

/// A client that has not received or played anything.
pub open spec fn fresh_client() -> ClientState {
    ClientState { buffer: JitterState { last: None, packets: Seq::empty() }, decoder_rate: None }
}

/// What a client's playback step does.
#[derive(Debug)]
pub enum PlaybackAction {
    /// No client with that id.
    NoClient,
    /// The slot was empty (lost or not yet arrived): nothing to play.
    Silence,
    /// Play `packet` at its sample rate; first create the client's decoder at
    /// that rate when `create_decoder` holds.
    Play { packet: AudioPacket, create_decoder: bool },
}

/// The client state after one playback step, and what that step does.
pub open spec fn tick_spec(c: ClientState) -> (ClientState, PlaybackAction) {
    let (b, r) = pop_spec(c.buffer);
    match r {
        None => (ClientState { buffer: b, decoder_rate: c.decoder_rate }, PlaybackAction::Silence),
        Some(p) => (
            ClientState {
                buffer: b,
                decoder_rate: if c.decoder_rate is None {
                    Some(p.sample_rate)
                } else {
                    c.decoder_rate
                },
            },
            PlaybackAction::Play { packet: p, create_decoder: c.decoder_rate is None },
        ),
    }
}

/// A client's decoder is created once, at the rate of the first packet it
/// plays: later steps never ask for another one nor change the rate.
pub proof fn lemma_decoder_created_once(c: ClientState)
    requires
        c.decoder_rate is Some,
    ensures
        tick_spec(c).0.decoder_rate == c.decoder_rate,
        !(tick_spec(c).1 matches PlaybackAction::Play { create_decoder: true, .. }),
{
}

/// Two consecutive packets delivered, in either order, to a freshly added
/// client are played in sequence order on the next two steps; the first
/// step creates the decoder at the first packet's rate, the second does not.
pub proof fn lemma_consecutive_packets_played_in_order(a: AudioPacket, b: AudioPacket, b_first: bool)
    requires
        b.seq == seq_succ(a.seq),
    ensures
        ({
            let c0 = fresh_client();
            let buf = if b_first {
                push_spec(push_spec(c0.buffer, b, 8), a, 8)
            } else {
                push_spec(push_spec(c0.buffer, a, 8), b, 8)
            };
            let c = ClientState { buffer: buf, decoder_rate: None };
            let (c1, act1) = tick_spec(c);
            let (c2, act2) = tick_spec(c1);
            &&& act1 == PlaybackAction::Play { packet: a, create_decoder: true }
            &&& act2 == PlaybackAction::Play { packet: b, create_decoder: false }
            &&& c2.decoder_rate == Some(a.sample_rate)
        }),
{
    lemma_consecutive_packets_in_order(a, b, 8, b_first);
}

/// Jitter buffers and decoder state keyed by client id.
pub struct PlayingEngine {
    client_map: Registry<Client>,
}

impl View for PlayingEngine {
    type V = Map<Seq<char>, ClientState>;

    closed spec fn view(&self) -> Map<Seq<char>, ClientState> {
        self.client_map@.map_values(|c: Client| c@)
    }
}

impl PlayingEngine {
    /// The client map and every client's buffer are well formed.
    pub closed spec fn wf(&self) -> bool {
        &&& self.client_map.wf()
        &&& forall|k: Seq<char>| #[trigger]
            self.client_map@.contains_key(k) ==> self.client_map@[k].wf()
    }

    /// An engine without clients.
    pub fn create() -> (engine: Self)
        ensures
            engine.wf(),
            engine@ == Map::<Seq<char>, ClientState>::empty(),
    {
        let engine = PlayingEngine { client_map: Registry::new() };
        assert(engine@ =~= Map::<Seq<char>, ClientState>::empty());
        engine
    }

    /// Adds client `id` with an empty buffer and no decoder, replacing any
    /// client of that id.
    pub fn add_target(&mut self, id: String)
        requires
            old(self).wf(),
        ensures
            final(self).wf(),
            final(self)@ == old(self)@.insert(id@, fresh_client()),
    {
        let client = Client { buffer: JitterBuffer::new(), decoder_rate: None };
        assert(client@.buffer.packets =~= Seq::<AudioPacket>::empty());
        self.client_map.insert(id, client);
        assert(self@ =~= old(self)@.insert(id@, fresh_client()));
    }

    /// Whether client `id` has been added.
    pub fn has_target(&self, id: &str) -> (b: bool)
        requires
            self.wf(),
        ensures
            b == self@.contains_key(id@),
    {
        self.client_map.get(id).is_some()
    }

    /// Hands an incoming packet to the jitter buffer of the client it comes
    /// from. Returns `false`, changing nothing, when that client has not been
    /// added.
    pub fn deliver(&mut self, packet: AudioPacket) -> (delivered: bool)
        requires
            old(self).wf(),
            packet.id is Some,
        ensures
            final(self).wf(),
            delivered == old(self)@.contains_key(packet.id->0@),
            !delivered ==> final(self)@ == old(self)@,
            delivered ==> final(self)@ == old(self)@.insert(
                packet.id->0@,
                ClientState {
                    buffer: push_spec(old(self)@[packet.id->0@].buffer, packet, 8),
                    decoder_rate: old(self)@[packet.id->0@].decoder_rate,
                },
            ),
    {
        let id = match &packet.id {
            Some(id) => id.clone(),
            None => String::new(),
        };
        let ghost key = packet.id->0@;
        let ghost p0 = packet;
        match self.client_map.remove(id.as_str()) {
            None => {
                assert(self@ =~= old(self)@);
                false
            },
            Some(mut client) => {
                client.buffer.push(packet);
                self.client_map.insert(id, client);
                assert(self@ =~= old(self)@.insert(
                    key,
                    ClientState {
                        buffer: push_spec(old(self)@[key].buffer, p0, 8),
                        decoder_rate: old(self)@[key].decoder_rate,
                    },
                ));
                true
            },
        }
    }

    /// One playback step of client `id`: takes the next slot of its jitter
    /// buffer and says what to play.
    pub fn playback_tick(&mut self, id: &str) -> (action: PlaybackAction)
        requires
            old(self).wf(),
        ensures
            final(self).wf(),
            !old(self)@.contains_key(id@) ==> action is NoClient && final(self)@ == old(self)@,
            old(self)@.contains_key(id@) ==> action == tick_spec(old(self)@[id@]).1
                && final(self)@ == old(self)@.insert(id@, tick_spec(old(self)@[id@]).0),
    {
        match self.client_map.remove(id) {
            None => {
                assert(self@ =~= old(self)@);
                PlaybackAction::NoClient
            },
            Some(mut client) => {
                let ghost c0 = client@;
                let popped = client.buffer.pop();
                let action = match popped {
                    None => PlaybackAction::Silence,
                    Some(packet) => {
                        let create = client.decoder_rate.is_none();
                        if create {
                            client.decoder_rate = Some(packet.sample_rate);
                        }
                        PlaybackAction::Play { packet, create_decoder: create }
                    },
                };
                self.client_map.insert(id.to_owned(), client);
                assert(self@ =~= old(self)@.insert(id@, tick_spec(c0).0));
                action
            },
        }
    }
}

} // verus!

//! The decoding engine: keeps one decoding target per remote client and
//! picks the target that an incoming packet is decoded for.

use vstd::prelude::*;

use crate::packet::AudioPacket;
use crate::registry::Registry;

verus! {

/// Decoding targets keyed by client id. The target type holds whatever
/// decodes and forwards a client's audio.
pub struct DecodingEngine<T> {
    client_map: Registry<T>,
}

impl<T> View for DecodingEngine<T> {
    type V = Map<Seq<char>, T>;

    closed spec fn view(&self) -> Map<Seq<char>, T> {
        self.client_map@
    }
}

impl<T> DecodingEngine<T> {
    /// The client map is well formed.
    pub closed spec fn wf(&self) -> bool {
        self.client_map.wf()
    }

    /// An engine without targets.
    pub fn create() -> (engine: Self)
        ensures
            engine.wf(),
            engine@ == Map::<Seq<char>, T>::empty(),
    {
        DecodingEngine { client_map: Registry::new() }
    }

    /// Registers `target` for client `id`, replacing any target it had.
    pub fn add_target(&mut self, id: String, target: T)
        requires
            old(self).wf(),
        ensures
            final(self).wf(),
            final(self)@ == old(self)@.insert(id@, target),
    {
        self.client_map.insert(id, target);
    }

    /// The target of client `id`, if it has been added.
    pub fn get_target(&self, id: &str) -> (r: Option<&T>)
        requires
            self.wf(),
        ensures
            r matches Some(t) ==> self@.contains_key(id@) && *t == self@[id@],
            r is None ==> !self@.contains_key(id@),
    {
        self.client_map.get(id)
    }

    /// The target that `packet` is to be decoded for: that of the client the
    /// packet comes from, or `None` when that client has not been added.
    pub fn route(&self, packet: &AudioPacket) -> (r: Option<&T>)
        requires
            self.wf(),
            packet.id is Some,
        ensures
            r matches Some(t) ==> self@.contains_key(packet.id->0@) && *t == self@[packet.id->0@],
            r is None ==> !self@.contains_key(packet.id->0@),
    {
        match &packet.id {
            Some(id) => self.client_map.get(id.as_str()),
            None => None,
        }
    }
}

/// After `add_target(id, target)` takes the engine from `before` to
/// `after`, `get_target` and `route` find `target` for `id`, and every other
/// client keeps what it had.
pub proof fn lemma_route_after_add<T>(
    before: DecodingEngine<T>,
    after: DecodingEngine<T>,
    id: Seq<char>,
    target: T,
    other: Seq<char>,
)
    requires
        after@ == before@.insert(id, target),
    ensures
        after@.contains_key(id),
        after@[id] == target,
        other != id ==> (after@.contains_key(other) <==> before@.contains_key(other)),
        other != id && before@.contains_key(other) ==> after@[other] == before@[other],
{
}

/// Starting from a fresh engine, after a series of `add_target` calls the
/// clients that have a target are exactly the ids that were added.
pub proof fn lemma_targets_are_added_ids<T>(
    engines: Seq<DecodingEngine<T>>,
    ids: Seq<Seq<char>>,
    targets: Seq<T>,
)
    requires
        engines.len() == ids.len() + 1,
        targets.len() == ids.len(),
        engines[0]@ == Map::<Seq<char>, T>::empty(),
        forall|i: int|
            0 <= i < ids.len() ==> (#[trigger] engines[i + 1])@ == engines[i]@.insert(
                ids[i],
                targets[i],
            ),
    ensures
        engines.last()@.dom() == ids.to_set(),
    decreases ids.len(),
{
    if ids.len() == 0 {
        assert(ids.to_set() =~= Set::<Seq<char>>::empty());
        assert(engines.last() == engines[0]);
    } else {
        let n = ids.len() - 1;
        let e0 = engines.drop_last();
        let i0 = ids.drop_last();
        let t0 = targets.drop_last();
        assert forall|i: int| 0 <= i < i0.len() implies (#[trigger] e0[i + 1])@ == e0[i]@.insert(
            i0[i],
            t0[i],
        ) by {
            assert(e0[i + 1] == engines[i + 1]);
            assert(e0[i] == engines[i]);
        }
        lemma_targets_are_added_ids(e0, i0, t0);
        assert(e0.last() == engines[n]);
        assert(engines[n + 1]@ == engines[n]@.insert(ids[n], targets[n]));
        assert(ids =~= i0.push(ids[n]));
        assert(ids.to_set() =~= i0.to_set().insert(ids[n])) by {
            assert forall|k: Seq<char>| ids.to_set().contains(k) <==> i0.to_set().contains(k) || k == ids[n] by {
                if ids.contains(k) {
                    let j = choose|j: int| 0 <= j < ids.len() && ids[j] == k;
                    if j < n {
                        assert(i0[j] == k);
                    }
                }
                if i0.contains(k) {
                    let j = choose|j: int| 0 <= j < i0.len() && i0[j] == k;
                    assert(ids[j] == k);
                }
                if k == ids[n] {
                    assert(ids.contains(k));
                }
            }
        }
    }
}

} // verus!

//! A jitter buffer: reorders packets that arrive out of order and hands
//! them out one by one in sequence, reporting a gap where a packet was lost.
//! The packets are kept in a binary heap ranked by playback order.

use vstd::prelude::*;
use vstd::multiset::Multiset;

use crate::heap::{
    all_plain, heap_ordered, lemma_heap_pop_keeps_order, lemma_heap_push_keeps_order,
    lemma_top_rank_is_earliest, distinct_seqs, sift_up, swap, heap_pop, heap_pop_exec, heap_push, heap_push_exec, lemma_heap_pop,
    lemma_heap_push, top_rank_index, top_rank_of,
};
use crate::packet::Packet;
use crate::sequence::{
    in_plain_range, lemma_before_numeric, next_sequence, seq_before, seq_succ, sequence_before,
};

verus! {

broadcast use vstd::seq_lib::group_to_multiset_ensures;

/// The abstract state of a jitter buffer.
pub struct JitterState<P> {
    /// Sequence number of the last slot handed out (a packet or a gap).
    pub last: Option<u16>,
    /// The buffered packets, laid out as a heap (see `heap`).
    pub packets: Seq<P>,
}

/// Whether some packet in `s` carries sequence number `n`.
pub open spec fn has_seq<P: Packet>(s: Seq<P>, n: u16) -> bool {
    exists|i: int| 0 <= i < s.len() && (#[trigger] s[i]).sequence() == n
}

/// `x` advanced by `k`, modulo 2^16.
pub open spec fn seq_plus(x: u16, k: nat) -> u16 {
    ((x as int + k) % 65536) as u16
}

/// A full buffer makes room for one more packet by popping its root, and
/// forgets what it last handed out.
pub open spec fn room_made<P: Packet>(st: JitterState<P>, cap: nat) -> JitterState<P> {
    if st.packets.len() >= cap && st.packets.len() > 0 {
        JitterState { last: None, packets: heap_pop(st.packets).0 }
    } else {
        st
    }
}

/// The state after offering `p` to a buffer of capacity `cap` in state `st`.
/// After room is made, `p` is discarded when it does not come after the
/// last slot handed out or when its sequence number is already buffered;
/// when it lies more than `cap` numbers past the highest-ranked buffered
/// packet (as a scan of the heap finds it), the buffer restarts with `p`
/// alone; otherwise `p` is pushed onto the heap.
pub open spec fn push_spec<P: Packet>(st: JitterState<P>, p: P, cap: nat) -> JitterState<P> {
    let r = room_made(st, cap);
    if r.last is Some && !seq_before(r.last->0, p.sequence()) {
        r
    } else if has_seq(r.packets, p.sequence()) {
        r
    } else if r.packets.len() > 0 && seq_before(
        seq_plus(r.packets[top_rank_of(r.packets)].sequence(), cap),
        p.sequence(),
    ) {
        JitterState { last: None, packets: seq![p] }
    } else {
        JitterState { last: r.last, packets: heap_push(r.packets, p) }
    }
}

/// The state after taking the next slot, and what the slot holds.
/// An empty buffer yields nothing and stays as it is. A buffer that has not
/// handed anything out yet yields its root. Otherwise the slot after the
/// last one is taken: it yields the root when the root carries that
/// sequence number, and nothing (a lost packet) when it does not.
pub open spec fn pop_spec<P: Packet>(st: JitterState<P>) -> (JitterState<P>, Option<P>) {
    if st.packets.len() == 0 {
        (st, None)
    } else {
        match st.last {
            None => {
                let (rest, q) = heap_pop(st.packets);
                (JitterState { last: Some(q.sequence()), packets: rest }, Some(q))
            },
            Some(l) => {
                let n = seq_succ(l);
                if st.packets[0].sequence() == n {
                    let (rest, q) = heap_pop(st.packets);
                    (JitterState { last: Some(n), packets: rest }, Some(q))
                } else {
                    (JitterState { last: Some(n), packets: st.packets }, None)
                }
            },
        }
    }
}

/// The state of a buffer that has neither received nor handed out anything.
pub open spec fn fresh<P>() -> JitterState<P> {
    JitterState { last: None, packets: Seq::empty() }
}

/// The first packet offered to a fresh buffer is the first one handed out.
pub proof fn lemma_first_packet_played<P: Packet>(p: P, cap: nat)
    requires
        cap >= 1,
    ensures
        pop_spec(push_spec(fresh::<P>(), p, cap)).1 == Some(p),
{
    let st = push_spec(fresh::<P>(), p, cap);
    assert(st.packets =~= seq![p]);
    assert(st.packets.drop_last() =~= Seq::<P>::empty());
}

/// Two consecutive packets are handed out in sequence order, whichever of
/// them arrives first, as long as the buffer holds at least two packets and
/// no more than the wrap-around window.
pub proof fn lemma_consecutive_packets_in_order<P: Packet>(a: P, b: P, cap: nat, b_first: bool)
    requires
        b.sequence() == seq_succ(a.sequence()),
        2 <= cap <= 8,
    ensures
        ({
            let st = if b_first {
                push_spec(push_spec(fresh::<P>(), b, cap), a, cap)
            } else {
                push_spec(push_spec(fresh::<P>(), a, cap), b, cap)
            };
            let (st1, r1) = pop_spec(st);
            let (st2, r2) = pop_spec(st1);
            r1 == Some(a) && r2 == Some(b) && st2.packets.len() == 0
        }),
{
    crate::sequence::lemma_successor_is_later(a.sequence());
    let first = if b_first { b } else { a };
    let second = if b_first { a } else { b };
    let st0 = push_spec(fresh::<P>(), first, cap);
    assert(st0.packets =~= seq![first]);
    assert(!has_seq(st0.packets, second.sequence()));
    assert(top_rank_of(st0.packets) == 0);
    assert(!seq_before(seq_plus(first.sequence(), cap), second.sequence()));
    let st = push_spec(st0, second, cap);
    assert(seq![first].push(second) =~= seq![first, second]);
    reveal_with_fuel(sift_up, 2);
    if b_first {
        assert(swap(seq![b, a], 1, 0) =~= seq![a, b]);
    }
    assert(st.packets =~= seq![a, b]);
    let (st1, r1) = pop_spec(st);
    assert(st.packets.drop_last() =~= seq![a]);
    assert(seq![a].update(0, b) =~= seq![b]);
    assert(st1.packets =~= seq![b]);
    let (st2, r2) = pop_spec(st1);
    assert(st1.packets.drop_last() =~= Seq::<P>::empty());
    assert(st2.packets =~= Seq::<P>::empty());
}

/// A packet handed out carries the sequence number recorded as the last
/// slot, so an equal sequence number offered afterwards is discarded while
/// the buffer has room: nothing is played back twice.
pub proof fn lemma_played_packet_not_replayed<P: Packet>(st: JitterState<P>, q: P, cap: nat)
    requires
        pop_spec(st).1 == Some(q),
        pop_spec(st).0.packets.len() < cap,
    ensures
        pop_spec(st).0.last == Some(q.sequence()),
        push_spec(pop_spec(st).0, q, cap) == pop_spec(st).0,
{
    lemma_heap_pop(st.packets);
    crate::sequence::lemma_before_asymmetric_total(q.sequence(), q.sequence());
}

/// A sequence number that is already buffered is not buffered a second time
/// while the buffer has room.
pub proof fn lemma_duplicate_discarded<P: Packet>(st: JitterState<P>, p: P, cap: nat)
    requires
        has_seq(st.packets, p.sequence()),
        st.packets.len() < cap,
    ensures
        push_spec(st, p, cap) == st,
{
}

/// What the buffer hands out was buffered, and exactly that packet leaves it.
pub proof fn lemma_pop_takes_buffered<P: Packet>(st: JitterState<P>)
    requires
        pop_spec(st).1 is Some,
    ensures
        st.packets.to_multiset().count(pop_spec(st).1->0) > 0,
        pop_spec(st).0.packets.to_multiset() == st.packets.to_multiset().remove(pop_spec(st).1->0),
{
    lemma_heap_pop(st.packets);
    assert(st.packets.contains(st.packets[0]));
}

/// When the packet expected after the last slot is the heap's root, it is
/// the one handed out next, and the buffer moves on to it.
pub proof fn lemma_expected_packet_played<P: Packet>(st: JitterState<P>, l: u16)
    requires
        st.last == Some(l),
        st.packets.len() > 0,
        st.packets[0].sequence() == seq_succ(l),
    ensures
        pop_spec(st).1 matches Some(q) && q.sequence() == seq_succ(l),
        pop_spec(st).0.last == Some(seq_succ(l)),
        pop_spec(st).0.packets.len() + 1 == st.packets.len(),
{
    lemma_heap_pop(st.packets);
}

/// When the expected next packet is not at the root (in particular when it
/// was lost), the buffer reports a gap, keeps its packets and moves on to
/// the following slot.
pub proof fn lemma_loss_reported<P: Packet>(st: JitterState<P>, l: u16)
    requires
        st.packets.len() > 0,
        st.last == Some(l),
        st.packets[0].sequence() != seq_succ(l),
    ensures
        pop_spec(st).1 is None,
        pop_spec(st).0 == (JitterState { last: Some(seq_succ(l)), packets: st.packets }),
{
}

/// Away from the wrap-around point, offering a packet to a heap-ordered
/// buffer keeps it heap-ordered.
pub proof fn lemma_push_keeps_order<P: Packet>(st: JitterState<P>, p: P, cap: nat)
    requires
        heap_ordered(st.packets),
        all_plain(st.packets),
        in_plain_range(p.sequence()),
    ensures
        heap_ordered(push_spec(st, p, cap).packets),
        all_plain(push_spec(st, p, cap).packets),
{
    let r = room_made(st, cap);
    if st.packets.len() >= cap && st.packets.len() > 0 {
        lemma_heap_pop_keeps_order(st.packets);
    }
    lemma_heap_push_keeps_order(r.packets, p);
    let single = seq![p];
    assert(heap_ordered(single));
    assert(all_plain(single));
}

/// Away from the wrap-around point, taking a slot keeps a heap-ordered
/// buffer heap-ordered.
pub proof fn lemma_pop_keeps_order<P: Packet>(st: JitterState<P>)
    requires
        heap_ordered(st.packets),
        all_plain(st.packets),
    ensures
        heap_ordered(pop_spec(st).0.packets),
        all_plain(pop_spec(st).0.packets),
{
    if st.packets.len() > 0 {
        lemma_heap_pop_keeps_order(st.packets);
    }
}

/// Away from the wrap-around point, a heap-ordered buffer that has not
/// handed anything out yet hands out a buffered packet that no other
/// buffered packet comes before.
pub proof fn lemma_pop_yields_earliest<P: Packet>(st: JitterState<P>)
    requires
        st.last is None,
        st.packets.len() > 0,
        heap_ordered(st.packets),
        all_plain(st.packets),
    ensures
        pop_spec(st).1 is Some,
        st.packets.to_multiset().count(pop_spec(st).1->0) > 0,
        forall|j: int|
            0 <= j < st.packets.len() ==> !seq_before(
                (#[trigger] st.packets[j]).sequence(),
                pop_spec(st).1->0.sequence(),
            ),
{
    lemma_heap_pop_keeps_order(st.packets);
    lemma_pop_takes_buffered(st);
}

/// Away from the wrap-around point, when everything buffered comes after
/// the last slot `l` and the packet numbered after `l` is buffered, that
/// packet is the one handed out next.
pub proof fn lemma_pop_in_order<P: Packet>(st: JitterState<P>, l: u16)
    requires
        st.last == Some(l),
        in_plain_range(l),
        heap_ordered(st.packets),
        all_plain(st.packets),
        forall|j: int| 0 <= j < st.packets.len() ==> seq_before(l, (#[trigger] st.packets[j]).sequence()),
        has_seq(st.packets, seq_succ(l)),
    ensures
        pop_spec(st).1 matches Some(q) && q.sequence() == seq_succ(l),
{
    let k = choose|i: int| 0 <= i < st.packets.len() && (#[trigger] st.packets[i]).sequence() == seq_succ(l);
    lemma_heap_pop_keeps_order(st.packets);
    lemma_heap_pop(st.packets);
    let root = st.packets[0];
    assert(!seq_before(st.packets[k].sequence(), root.sequence()));
    assert(seq_before(l, root.sequence()));
    lemma_before_numeric(st.packets[k].sequence(), root.sequence(), 0);
    lemma_before_numeric(l, root.sequence(), 0);
    assert(root.sequence() == seq_succ(l));
}

/// Away from the wrap-around point, when a packet is offered to a full
/// heap-ordered buffer, the packet that makes room is the earliest buffered
/// one: it is dropped, and what remains is the old contents without it,
/// plus at most the offered packet.
pub proof fn lemma_full_push_drops_earliest<P: Packet>(st: JitterState<P>, p: P, cap: nat)
    requires
        st.packets.len() >= cap,
        st.packets.len() > 0,
        heap_ordered(st.packets),
        all_plain(st.packets),
    ensures
        forall|j: int|
            0 <= j < st.packets.len() ==> !seq_before(
                (#[trigger] st.packets[j]).sequence(),
                st.packets[0].sequence(),
            ),
        push_spec(st, p, cap).packets.to_multiset().subset_of(
            st.packets.to_multiset().remove(st.packets[0]).insert(p),
        ),
{
    broadcast use vstd::multiset::group_multiset_axioms;
    broadcast use vstd::seq_lib::to_multiset_build;

    lemma_heap_pop_keeps_order(st.packets);
    lemma_heap_pop(st.packets);
    let r = room_made(st, cap);
    let m = st.packets.to_multiset().remove(st.packets[0]);
    assert(r.packets.to_multiset() == m);
    lemma_heap_push(r.packets, p);
    let single = seq![p];
    assert(single =~= Seq::<P>::empty().push(p));
    assert(single.to_multiset() =~= Multiset::<P>::empty().insert(p));
}

/// Away from the wrap-around point, a packet that would be kept but lies
/// more than `cap` numbers past the earliest buffered packet restarts the
/// buffer with that packet alone.
pub proof fn lemma_push_restarts_far_ahead<P: Packet>(st: JitterState<P>, p: P, cap: nat, k: int)
    requires
        st.packets.len() < cap,
        0 <= k < st.packets.len(),
        all_plain(st.packets),
        forall|j: int|
            0 <= j < st.packets.len() ==> !seq_before(
                (#[trigger] st.packets[j]).sequence(),
                st.packets[k].sequence(),
            ),
        st.last matches Some(l) ==> seq_before(l, p.sequence()),
        !has_seq(st.packets, p.sequence()),
        seq_before(seq_plus(st.packets[k].sequence(), cap), p.sequence()),
    ensures
        push_spec(st, p, cap) == (JitterState { last: None, packets: seq![p] }),
{
    lemma_top_rank_is_earliest(st.packets);
    let t = top_rank_of(st.packets);
    assert(!seq_before(st.packets[k].sequence(), st.packets[t].sequence()));
    assert(!seq_before(st.packets[t].sequence(), st.packets[k].sequence()));
    lemma_before_numeric(st.packets[k].sequence(), st.packets[t].sequence(), 0);
    lemma_before_numeric(st.packets[t].sequence(), st.packets[k].sequence(), 0);
    assert(st.packets[t].sequence() == st.packets[k].sequence());
}


/// A jitter buffer that holds at most `S` packets (one when `S` is 0).
pub struct JitterBuffer<P, const S: u8> {
    last: Option<u16>,
    packets: Vec<P>,
}

impl<P: Packet, const S: u8> View for JitterBuffer<P, S> {
    type V = JitterState<P>;

    closed spec fn view(&self) -> JitterState<P> {
        JitterState { last: self.last, packets: self.packets@ }
    }
}

impl<P: Packet, const S: u8> JitterBuffer<P, S> {
    /// The buffer holds at most `S` packets (one when `S` is 0), and no two
    /// of them share a sequence number.
    pub closed spec fn wf(&self) -> bool {
        &&& self.packets@.len() <= if S == 0 { 1 } else { S as int }
        &&& distinct_seqs(self.packets@)
    }

    /// An empty buffer that has not handed anything out.
    pub fn new() -> (buffer: Self)
        ensures
            buffer.wf(),
            buffer@.last is None,
            buffer@.packets == Seq::<P>::empty(),
    {
        JitterBuffer { last: None, packets: Vec::new() }
    }

    /// Number of packets buffered.
    pub fn len(&self) -> (n: usize)
        ensures
            n == self@.packets.len(),
    {
        self.packets.len()
    }

    /// Whether a buffered packet carries sequence number `n`.
    fn contains_seq(&self, n: u16) -> (b: bool)
        ensures
            b == has_seq(self.packets@, n),
    {
        let mut k: usize = 0;
        while k < self.packets.len()
            invariant
                k <= self.packets@.len(),
                forall|j: int| 0 <= j < k ==> (#[trigger] self.packets@[j]).sequence() != n,
            decreases self.packets@.len() - k,
        {
            if self.packets[k].sequence_number() == n {
                assert(has_seq(self.packets@, n));
                return true;
            }
            k = k + 1;
        }
        false
    }

    /// Offers a packet to the buffer; see `push_spec` for when it is kept.
    pub fn push(&mut self, packet: P)
        requires
            old(self).wf(),
        ensures
            final(self).wf(),
            final(self)@ == push_spec(old(self)@, packet, S as nat),
            final(self)@.packets.len() <= if S == 0 { 1 } else { S as int },
            distinct_seqs(final(self)@.packets),
    {
        let ghost st = self@;
        let cap: usize = S as usize;
        if self.packets.len() >= cap && self.packets.len() > 0 {
            proof {
                lemma_heap_pop(self.packets@);
            }
            let _dropped = heap_pop_exec(&mut self.packets);
            self.last = None;
        }
        let ghost r = self@;
        assert(r == room_made(st, S as nat));
        let seq = packet.sequence_number();
        if let Some(l) = self.last {
            if !sequence_before(l, seq) {
                return;
            }
        }
        if self.contains_seq(seq) {
            return;
        }
        if self.packets.len() > 0 {
            let i = top_rank_index(&self.packets);
            let e = self.packets[i].sequence_number();
            let limit = e.wrapping_add(S as u16);
            assert(limit == seq_plus(e, S as nat));
            if sequence_before(limit, seq) {
                self.packets.clear();
                self.last = None;
                self.packets.push(packet);
                assert(self.packets@ =~= seq![packet]);
                return;
            }
        }
        proof {
            lemma_heap_push(self.packets@, packet);
        }
        heap_push_exec(&mut self.packets, packet);
    }

    /// Takes the next slot from the buffer; see `pop_spec` for what it yields.
    pub fn pop(&mut self) -> (r: Option<P>)
        requires
            old(self).wf(),
        ensures
            final(self).wf(),
            (final(self)@, r) == pop_spec(old(self)@),
            final(self)@.packets.len() <= if S == 0 { 1 } else { S as int },
            distinct_seqs(final(self)@.packets),
    {
        if self.packets.len() == 0 {
            return None;
        }
        proof {
            lemma_heap_pop(self.packets@);
        }
        match self.last {
            None => {
                let p = heap_pop_exec(&mut self.packets);
                self.last = Some(p.sequence_number());
                Some(p)
            },
            Some(l) => {
                let n = next_sequence(l);
                self.last = Some(n);
                if self.packets[0].sequence_number() == n {
                    let p = heap_pop_exec(&mut self.packets);
                    Some(p)
                } else {
                    None
                }
            },
        }
    }
}

} // verus!

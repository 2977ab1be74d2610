//! A binary max-heap of packets laid out in a vector, ranked by playback
//! order: a packet that comes earlier ranks higher. Pushing sifts the new
//! packet up; popping moves the last packet to the root, sinks it along the
//! higher-ranked children down to a leaf and sifts it back up.

use vstd::prelude::*;

use crate::packet::Packet;
use crate::sequence::{in_plain_range, lemma_before_numeric, seq_before, sequence_before};

verus! {

broadcast use vstd::seq_lib::group_to_multiset_ensures;

/// `a` ranks above `b`: it comes earlier in playback order.
pub open spec fn ranks_above<P: Packet>(a: P, b: P) -> bool {
    seq_before(a.sequence(), b.sequence())
}

/// No two packets in `s` carry the same sequence number.
pub open spec fn distinct_seqs<P: Packet>(s: Seq<P>) -> bool {
    forall|i: int, j: int|
        0 <= i < s.len() && 0 <= j < s.len() && i != j ==> (#[trigger] s[i]).sequence() != (
        #[trigger] s[j]).sequence()
}

/// Every packet of `s` carries a number away from the wrap-around point.
pub open spec fn all_plain<P: Packet>(s: Seq<P>) -> bool {
    forall|i: int| 0 <= i < s.len() ==> in_plain_range((#[trigger] s[i]).sequence())
}

/// Heap order: no packet comes before the packet at its parent position.
pub open spec fn heap_ordered<P: Packet>(s: Seq<P>) -> bool {
    forall|i: int|
        0 < i < s.len() ==> !seq_before((#[trigger] s[i]).sequence(), s[(i - 1) / 2].sequence())
}

/// `s` with the entries at `i` and `j` exchanged.
pub open spec fn swap<P>(s: Seq<P>, i: int, j: int) -> Seq<P> {
    s.update(i, s[j]).update(j, s[i])
}

/// Moves the packet at `pos` towards the root while it ranks above its parent.
pub open spec fn sift_up<P: Packet>(s: Seq<P>, pos: int) -> Seq<P>
    decreases pos,
{
    if pos <= 0 {
        s
    } else {
        let parent = (pos - 1) / 2;
        if ranks_above(s[pos], s[parent]) {
            sift_up(swap(s, pos, parent), parent)
        } else {
            s
        }
    }
}

/// Moves the packet at `pos` down to a leaf, each time to the child that
/// ranks higher (the right one unless the left ranks above it); gives the
/// vector and the packet's final position.
pub open spec fn sink<P: Packet>(s: Seq<P>, pos: int) -> (Seq<P>, int)
    decreases s.len() - pos,
{
    let child = 2 * pos + 1;
    if pos < 0 {
        (s, pos)
    } else if child + 1 < s.len() {
        let c = if ranks_above(s[child], s[child + 1]) { child } else { child + 1 };
        sink(swap(s, pos, c), c)
    } else if child + 1 == s.len() {
        (swap(s, pos, child), child)
    } else {
        (s, pos)
    }
}

/// The heap after adding `p`.
pub open spec fn heap_push<P: Packet>(s: Seq<P>, p: P) -> Seq<P> {
    sift_up(s.push(p), s.len() as int)
}

/// The heap after taking its root out of a non-empty `s`, and the root.
pub open spec fn heap_pop<P: Packet>(s: Seq<P>) -> (Seq<P>, P) {
    let t = s.drop_last();
    if t.len() == 0 {
        (t, s.last())
    } else {
        let (u, pos) = sink(t.update(0, s.last()), 0);
        (sift_up(u, pos), t[0])
    }
}

/// Position of the highest-ranked packet of a non-empty `s` found by a scan
/// in vector order that keeps its current pick only while the pick ranks
/// above the next packet.
pub open spec fn top_rank_of<P: Packet>(s: Seq<P>) -> int
    decreases s.len(),
{
    if s.len() <= 1 {
        0
    } else {
        let i = top_rank_of(s.drop_last());
        if ranks_above(s[i], s.last()) {
            i
        } else {
            s.len() - 1
        }
    }
}

/// Exchanging two entries keeps the length, the contents and distinctness.
pub proof fn lemma_swap_permutes<P: Packet>(s: Seq<P>, i: int, j: int)
    requires
        0 <= i < s.len(),
        0 <= j < s.len(),
    ensures
        swap(s, i, j).len() == s.len(),
        swap(s, i, j).to_multiset() == s.to_multiset(),
        distinct_seqs(s) ==> distinct_seqs(swap(s, i, j)),
        all_plain(s) ==> all_plain(swap(s, i, j)),
{
    broadcast use vstd::seq_lib::to_multiset_update;
    broadcast use vstd::multiset::group_multiset_axioms;

    let t = swap(s, i, j);
    if i == j {
        assert(t =~= s);
    } else {
        let s1 = s.update(i, s[j]);
        assert(s1[j] == s[j]);
        assert(s1.to_multiset() == s.to_multiset().insert(s[j]).remove(s[i]));
        assert(t.to_multiset() == s1.to_multiset().insert(s[i]).remove(s[j]));
        assert(s.to_multiset().count(s[i]) > 0);
        assert(s.to_multiset().count(s[j]) > 0);
        assert(t.to_multiset() =~= s.to_multiset());
    }
    if all_plain(s) {
        assert forall|a: int| 0 <= a < t.len() implies in_plain_range((#[trigger] t[a]).sequence()) by {
            let a0 = if a == i { j } else if a == j { i } else { a };
            assert(t[a] == s[a0]);
        }
    }
    if distinct_seqs(s) {
        assert forall|a: int, b: int|
            0 <= a < t.len() && 0 <= b < t.len() && a != b implies (#[trigger] t[a]).sequence()
            != (#[trigger] t[b]).sequence() by {
            let a0 = if a == i { j } else if a == j { i } else { a };
            let b0 = if b == i { j } else if b == j { i } else { b };
            assert(t[a] == s[a0]);
            assert(t[b] == s[b0]);
        }
    }
}

/// Sifting up keeps the length, the contents and distinctness.
pub proof fn lemma_sift_up_permutes<P: Packet>(s: Seq<P>, pos: int)
    requires
        0 <= pos < s.len(),
    ensures
        sift_up(s, pos).len() == s.len(),
        sift_up(s, pos).to_multiset() == s.to_multiset(),
        distinct_seqs(s) ==> distinct_seqs(sift_up(s, pos)),
        all_plain(s) ==> all_plain(sift_up(s, pos)),
    decreases pos,
{
    if pos > 0 {
        let parent = (pos - 1) / 2;
        if ranks_above(s[pos], s[parent]) {
            lemma_swap_permutes(s, pos, parent);
            lemma_sift_up_permutes(swap(s, pos, parent), parent);
        }
    }
}

/// Sinking keeps the length, the contents and distinctness, and ends on a
/// valid position.
pub proof fn lemma_sink_permutes<P: Packet>(s: Seq<P>, pos: int)
    requires
        0 <= pos < s.len(),
    ensures
        sink(s, pos).0.len() == s.len(),
        sink(s, pos).0.to_multiset() == s.to_multiset(),
        distinct_seqs(s) ==> distinct_seqs(sink(s, pos).0),
        all_plain(s) ==> all_plain(sink(s, pos).0),
        0 <= sink(s, pos).1 < s.len(),
        2 * sink(s, pos).1 + 1 >= s.len(),
    decreases s.len() - pos,
{
    let child = 2 * pos + 1;
    if child + 1 < s.len() {
        let c = if ranks_above(s[child], s[child + 1]) { child } else { child + 1 };
        lemma_swap_permutes(s, pos, c);
        lemma_sink_permutes(swap(s, pos, c), c);
    } else if child + 1 == s.len() {
        lemma_swap_permutes(s, pos, child);
    }
}

/// Pushing adds exactly the new packet; it keeps distinctness when the new
/// sequence number is not present yet.
pub proof fn lemma_heap_push<P: Packet>(s: Seq<P>, p: P)
    ensures
        heap_push(s, p).len() == s.len() + 1,
        heap_push(s, p).to_multiset() == s.to_multiset().insert(p),
        distinct_seqs(s) && (forall|i: int| 0 <= i < s.len() ==> (#[trigger] s[i]).sequence()
            != p.sequence()) ==> distinct_seqs(heap_push(s, p)),
{
    broadcast use vstd::seq_lib::to_multiset_build;

    let t = s.push(p);
    lemma_sift_up_permutes(t, s.len() as int);
    if distinct_seqs(s) && (forall|i: int| 0 <= i < s.len() ==> (#[trigger] s[i]).sequence()
        != p.sequence()) {
        assert forall|a: int, b: int|
            0 <= a < t.len() && 0 <= b < t.len() && a != b implies (#[trigger] t[a]).sequence()
            != (#[trigger] t[b]).sequence() by {
            if a < s.len() {
                assert(t[a] == s[a]);
            }
            if b < s.len() {
                assert(t[b] == s[b]);
            }
        }
    }
}

/// Popping hands out the root and removes exactly it, keeping distinctness.
pub proof fn lemma_heap_pop<P: Packet>(s: Seq<P>)
    requires
        s.len() > 0,
    ensures
        heap_pop(s).1 == s[0],
        heap_pop(s).0.len() + 1 == s.len(),
        heap_pop(s).0.to_multiset() == s.to_multiset().remove(s[0]),
        distinct_seqs(s) ==> distinct_seqs(heap_pop(s).0),
{
    broadcast use vstd::seq_lib::to_multiset_update;
    broadcast use vstd::seq_lib::to_multiset_remove;
    broadcast use vstd::multiset::group_multiset_axioms;

    let n = s.len() as int;
    let t = s.drop_last();
    assert(t =~= s.remove(n - 1));
    assert(t.to_multiset() == s.to_multiset().remove(s[n - 1]));
    if t.len() == 0 {
        assert(s.to_multiset().remove(s[0]) =~= t.to_multiset()) by {
            assert(s =~= seq![s[0]]);
            assert(s.to_multiset().count(s[0]) > 0);
        }
    } else {
        let t2 = t.update(0, s.last());
        assert(t2.to_multiset() == t.to_multiset().insert(s.last()).remove(t[0]));
        assert(s.to_multiset().count(s[n - 1]) > 0);
        assert(t2.to_multiset() =~= s.to_multiset().remove(s[0]));
        lemma_sink_permutes(t2, 0);
        let (u, pos) = sink(t2, 0);
        lemma_sift_up_permutes(u, pos);
        if distinct_seqs(s) {
            assert forall|a: int, b: int|
                0 <= a < t2.len() && 0 <= b < t2.len() && a != b implies (#[trigger] t2[a]).sequence()
                != (#[trigger] t2[b]).sequence() by {
                let a0 = if a == 0 { n - 1 } else { a };
                let b0 = if b == 0 { n - 1 } else { b };
                assert(t2[a] == s[a0]);
                assert(t2[b] == s[b0]);
            }
        }
    }
}

/// Numeric key of the packet at `i`.
spec fn key<P: Packet>(s: Seq<P>, i: int) -> int {
    s[i].sequence() as int
}

/// Numeric heap order: every packet's number is at least its parent's.
spec fn key_heap<P: Packet>(s: Seq<P>) -> bool {
    forall|i: int| 0 < i < s.len() ==> key(s, (i - 1) / 2) <= #[trigger] key(s, i)
}

/// Numeric heap order holds on every edge except the one from `pos` up to
/// its parent, and `pos`'s parent is at most `pos`'s children.
spec fn hole_up<P: Packet>(s: Seq<P>, pos: int) -> bool {
    &&& forall|i: int| 0 < i < s.len() && i != pos ==> key(s, (i - 1) / 2) <= #[trigger] key(s, i)
    &&& pos > 0 ==> forall|i: int|
        0 < i < s.len() && (i - 1) / 2 == pos ==> key(s, (pos - 1) / 2) <= #[trigger] key(s, i)
}

/// Numeric heap order holds on every edge that does not touch `pos`, and
/// `pos`'s parent is at most `pos`'s children.
spec fn hole_down<P: Packet>(s: Seq<P>, pos: int) -> bool {
    &&& forall|i: int|
        0 < i < s.len() && i != pos && (i - 1) / 2 != pos ==> key(s, (i - 1) / 2) <= #[trigger] key(
            s,
            i,
        )
    &&& pos > 0 ==> forall|i: int|
        0 < i < s.len() && (i - 1) / 2 == pos ==> key(s, (pos - 1) / 2) <= #[trigger] key(s, i)
}

/// Away from the wrap-around point, heap order is numeric heap order.
proof fn lemma_plain_heap<P: Packet>(s: Seq<P>)
    requires
        all_plain(s),
    ensures
        heap_ordered(s) <==> key_heap(s),
{
    assert forall|i: int| 0 < i < s.len() implies (!seq_before(
        (#[trigger] s[i]).sequence(),
        s[(i - 1) / 2].sequence(),
    ) <==> key(s, (i - 1) / 2) <= key(s, i)) by {
        lemma_before_numeric(s[i].sequence(), s[(i - 1) / 2].sequence(), 0);
    }
    if heap_ordered(s) {
        assert forall|i: int| 0 < i < s.len() implies key(s, (i - 1) / 2) <= #[trigger] key(s, i) by {
            assert(!seq_before(s[i].sequence(), s[(i - 1) / 2].sequence()));
        }
    }
    if key_heap(s) {
        assert forall|i: int| 0 < i < s.len() implies !seq_before(
            (#[trigger] s[i]).sequence(),
            s[(i - 1) / 2].sequence(),
        ) by {
            assert(key(s, (i - 1) / 2) <= key(s, i));
        }
    }
}

/// Sifting up a packet whose only out-of-order edge is the one to its
/// parent restores numeric heap order.
proof fn lemma_sift_up_orders<P: Packet>(s: Seq<P>, pos: int)
    requires
        0 <= pos < s.len(),
        hole_up(s, pos),
        all_plain(s),
    ensures
        key_heap(sift_up(s, pos)),
    decreases pos,
{
    if pos == 0 {
        assert forall|i: int| 0 < i < s.len() implies key(s, (i - 1) / 2) <= #[trigger] key(s, i) by {}
    } else {
        let q = (pos - 1) / 2;
        lemma_before_numeric(s[pos].sequence(), s[q].sequence(), 0);
        if ranks_above(s[pos], s[q]) {
            let t = swap(s, pos, q);
            lemma_swap_permutes(s, pos, q);
            assert(t[q] == s[pos]);
            assert(t[pos] == s[q]);
            assert forall|i: int| 0 < i < t.len() && i != q implies key(t, (i - 1) / 2) <= #[trigger] key(
                t,
                i,
            ) by {
                if i == pos {
                } else if (i - 1) / 2 == pos {
                    assert(t[i] == s[i]);
                    assert(key(s, q) <= key(s, i));
                } else if (i - 1) / 2 == q {
                    assert(t[i] == s[i]);
                    assert(key(s, q) <= key(s, i));
                } else {
                    assert(t[i] == s[i]);
                    assert(t[(i - 1) / 2] == s[(i - 1) / 2]);
                    assert(key(s, (i - 1) / 2) <= key(s, i));
                }
            }
            if q > 0 {
                let g = (q - 1) / 2;
                assert(t[g] == s[g]);
                assert(key(s, g) <= key(s, q));
                assert forall|i: int| 0 < i < t.len() && (i - 1) / 2 == q implies key(t, (q - 1) / 2)
                    <= #[trigger] key(t, i) by {
                    if i != pos {
                        assert(t[i] == s[i]);
                        assert(key(s, q) <= key(s, i));
                    }
                }
            }
            lemma_sift_up_orders(t, q);
        } else {
            assert forall|i: int| 0 < i < s.len() implies key(s, (i - 1) / 2) <= #[trigger] key(s, i) by {
                if i == pos {
                }
            }
        }
    }
}

/// Sinking a packet whose edges are the only ones out of order ends on a
/// leaf whose only out-of-order edge is the one to its parent.
proof fn lemma_sink_orders<P: Packet>(s: Seq<P>, pos: int)
    requires
        0 <= pos < s.len(),
        hole_down(s, pos),
        all_plain(s),
    ensures
        hole_up(sink(s, pos).0, sink(s, pos).1),
    decreases s.len() - pos,
{
    let child = 2 * pos + 1;
    if child + 1 < s.len() {
        let c = if ranks_above(s[child], s[child + 1]) { child } else { child + 1 };
        let o = if c == child { child + 1 } else { child };
        lemma_before_numeric(s[child].sequence(), s[child + 1].sequence(), 0);
        assert(key(s, c) <= key(s, o));
        let t = swap(s, pos, c);
        lemma_swap_permutes(s, pos, c);
        assert(t[pos] == s[c]);
        assert(t[c] == s[pos]);
        assert((c - 1) / 2 == pos);
        assert((o - 1) / 2 == pos);
        assert forall|i: int|
            0 < i < t.len() && i != c && (i - 1) / 2 != c implies key(t, (i - 1) / 2) <= #[trigger] key(
            t,
            i,
        ) by {
            if i == pos {
                assert(t[(pos - 1) / 2] == s[(pos - 1) / 2]);
                assert(key(s, (pos - 1) / 2) <= key(s, c));
            } else if (i - 1) / 2 == pos {
                assert(i == o);
                assert(t[o] == s[o]);
            } else {
                assert(t[i] == s[i]);
                assert(t[(i - 1) / 2] == s[(i - 1) / 2]);
                assert(key(s, (i - 1) / 2) <= key(s, i));
            }
        }
        assert forall|i: int| 0 < i < t.len() && (i - 1) / 2 == c implies key(t, (c - 1) / 2)
            <= #[trigger] key(t, i) by {
            assert(i != pos);
            assert(t[i] == s[i]);
            assert(key(s, (i - 1) / 2) <= key(s, i));
        }
        lemma_sink_orders(t, c);
    } else if child + 1 == s.len() {
        let t = swap(s, pos, child);
        lemma_swap_permutes(s, pos, child);
        assert(t[pos] == s[child]);
        assert(t[child] == s[pos]);
        assert((child - 1) / 2 == pos);
        assert forall|i: int| 0 < i < t.len() && i != child implies key(t, (i - 1) / 2) <= #[trigger] key(
            t,
            i,
        ) by {
            if i == pos {
                assert(t[(pos - 1) / 2] == s[(pos - 1) / 2]);
                assert(key(s, (pos - 1) / 2) <= key(s, child));
            } else {
                assert((i - 1) / 2 != pos);
                assert(t[i] == s[i]);
                assert(t[(i - 1) / 2] == s[(i - 1) / 2]);
                assert(key(s, (i - 1) / 2) <= key(s, i));
            }
        }
    } else {
        assert forall|i: int| 0 < i < s.len() && i != pos implies key(s, (i - 1) / 2) <= #[trigger] key(
            s,
            i,
        ) by {
            assert((i - 1) / 2 != pos);
        }
    }
}

/// Under numeric heap order the root's number is the least.
proof fn lemma_root_least<P: Packet>(s: Seq<P>, j: int)
    requires
        key_heap(s),
        0 <= j < s.len(),
    ensures
        key(s, 0) <= key(s, j),
    decreases j,
{
    if j > 0 {
        lemma_root_least(s, (j - 1) / 2);
        assert(key(s, (j - 1) / 2) <= key(s, j));
    }
}

/// Adding a packet to a heap of packets away from the wrap-around point
/// keeps heap order: no packet comes before its parent.
pub proof fn lemma_heap_push_keeps_order<P: Packet>(s: Seq<P>, p: P)
    requires
        heap_ordered(s),
        all_plain(s),
        in_plain_range(p.sequence()),
    ensures
        heap_ordered(heap_push(s, p)),
        all_plain(heap_push(s, p)),
{
    lemma_plain_heap(s);
    let t = s.push(p);
    let n = s.len() as int;
    assert forall|i: int| 0 <= i < t.len() implies in_plain_range((#[trigger] t[i]).sequence()) by {
        if i < n {
            assert(t[i] == s[i]);
        }
    }
    assert forall|i: int| 0 < i < t.len() && i != n implies key(t, (i - 1) / 2) <= #[trigger] key(t, i) by {
        assert(t[i] == s[i]);
        assert(t[(i - 1) / 2] == s[(i - 1) / 2]);
        assert(key(s, (i - 1) / 2) <= key(s, i));
    }
    lemma_sift_up_orders(t, n);
    lemma_sift_up_permutes(t, n);
    lemma_plain_heap(heap_push(s, p));
}

/// Taking the root out of a heap of packets away from the wrap-around point
/// yields its earliest packet and keeps heap order.
pub proof fn lemma_heap_pop_keeps_order<P: Packet>(s: Seq<P>)
    requires
        s.len() > 0,
        heap_ordered(s),
        all_plain(s),
    ensures
        heap_ordered(heap_pop(s).0),
        all_plain(heap_pop(s).0),
        forall|j: int|
            0 <= j < s.len() ==> !seq_before((#[trigger] s[j]).sequence(), heap_pop(s).1.sequence()),
{
    lemma_plain_heap(s);
    lemma_heap_pop(s);
    assert forall|j: int| 0 <= j < s.len() implies !seq_before(
        (#[trigger] s[j]).sequence(),
        heap_pop(s).1.sequence(),
    ) by {
        lemma_root_least(s, j);
        lemma_before_numeric(s[j].sequence(), s[0].sequence(), 0);
    }
    let n = s.len() as int;
    let t = s.drop_last();
    if t.len() > 0 {
        let t2 = t.update(0, s.last());
        assert forall|i: int| 0 <= i < t2.len() implies in_plain_range((#[trigger] t2[i]).sequence()) by {
            if i == 0 {
                assert(t2[0] == s[n - 1]);
            } else {
                assert(t2[i] == s[i]);
            }
        }
        assert forall|i: int|
            0 < i < t2.len() && i != 0 && (i - 1) / 2 != 0 implies key(t2, (i - 1) / 2) <= #[trigger] key(
            t2,
            i,
        ) by {
            assert(t2[i] == s[i]);
            assert(t2[(i - 1) / 2] == s[(i - 1) / 2]);
            assert(key(s, (i - 1) / 2) <= key(s, i));
        }
        lemma_sink_orders(t2, 0);
        lemma_sink_permutes(t2, 0);
        let (u, pos) = sink(t2, 0);
        lemma_sift_up_orders(u, pos);
        lemma_sift_up_permutes(u, pos);
    }
    lemma_plain_heap(heap_pop(s).0);
}

/// Away from the wrap-around point, the scan finds the earliest packet: no
/// packet comes before the one it picks.
pub proof fn lemma_top_rank_is_earliest<P: Packet>(s: Seq<P>)
    requires
        s.len() > 0,
        all_plain(s),
    ensures
        0 <= top_rank_of(s) < s.len(),
        forall|j: int|
            0 <= j < s.len() ==> !seq_before((#[trigger] s[j]).sequence(), s[top_rank_of(s)].sequence()),
    decreases s.len(),
{
    if s.len() > 1 {
        let d = s.drop_last();
        assert forall|i: int| 0 <= i < d.len() implies in_plain_range((#[trigger] d[i]).sequence()) by {
            assert(d[i] == s[i]);
        }
        lemma_top_rank_is_earliest(d);
        let i = top_rank_of(d);
        let n = s.len() - 1;
        assert(d[i] == s[i]);
        lemma_before_numeric(s[i].sequence(), s[n].sequence(), 0);
        assert forall|j: int| 0 <= j < s.len() implies !seq_before(
            (#[trigger] s[j]).sequence(),
            s[top_rank_of(s)].sequence(),
        ) by {
            lemma_before_numeric(s[j].sequence(), s[top_rank_of(s)].sequence(), 0);
            if j < n {
                assert(d[j] == s[j]);
                assert(!seq_before(d[j].sequence(), d[i].sequence()));
                lemma_before_numeric(s[j].sequence(), s[i].sequence(), 0);
            }
        }
    }
}

/// Exchanges the entries at `i` and `j`.
fn swap_entries<P>(v: &mut Vec<P>, i: usize, j: usize)
    requires
        i < old(v)@.len(),
        j < old(v)@.len(),
        i != j,
    ensures
        final(v)@ == swap(old(v)@, i as int, j as int),
{
    let ghost s = v@;
    if i < j {
        let mut t = v.remove(j);
        std::mem::swap(&mut t, &mut v[i]);
        v.insert(j, t);
    } else {
        let mut t = v.remove(i);
        std::mem::swap(&mut t, &mut v[j]);
        v.insert(i, t);
    }
    assert(v@ =~= swap(s, i as int, j as int));
}

/// Moves the packet at `pos` up; see `sift_up`.
fn sift_up_exec<P: Packet>(v: &mut Vec<P>, pos: usize)
    requires
        pos < old(v)@.len(),
    ensures
        final(v)@ == sift_up(old(v)@, pos as int),
    decreases pos,
{
    if pos > 0 {
        let parent = (pos - 1) / 2;
        if sequence_before(v[pos].sequence_number(), v[parent].sequence_number()) {
            swap_entries(v, pos, parent);
            sift_up_exec(v, parent);
        }
    }
}

/// Moves the packet at `pos` down to a leaf; see `sink`.
fn sink_exec<P: Packet>(v: &mut Vec<P>, pos: usize) -> (r: usize)
    requires
        pos < old(v)@.len(),
        old(v)@.len() <= usize::MAX / 2,
    ensures
        (final(v)@, r as int) == sink(old(v)@, pos as int),
    decreases old(v)@.len() - pos,
{
    let child = 2 * pos + 1;
    if child + 1 < v.len() {
        let c = if sequence_before(v[child].sequence_number(), v[child + 1].sequence_number()) {
            child
        } else {
            child + 1
        };
        swap_entries(v, pos, c);
        sink_exec(v, c)
    } else if child + 1 == v.len() {
        swap_entries(v, pos, child);
        child
    } else {
        pos
    }
}

/// Adds `p` to the heap; see `heap_push`.
pub fn heap_push_exec<P: Packet>(v: &mut Vec<P>, p: P)
    ensures
        final(v)@ == heap_push(old(v)@, p),
{
    let n = v.len();
    v.push(p);
    sift_up_exec(v, n);
}

/// Takes the root out of a non-empty heap; see `heap_pop`.
pub fn heap_pop_exec<P: Packet>(v: &mut Vec<P>) -> (root: P)
    requires
        0 < old(v)@.len() <= usize::MAX / 2,
    ensures
        (final(v)@, root) == heap_pop(old(v)@),
{
    let ghost s = v@;
    let last = v.pop().unwrap();
    assert(v@ =~= s.drop_last());
    if v.len() == 0 {
        return last;
    }
    let mut root = last;
    std::mem::swap(&mut root, &mut v[0]);
    proof {
        lemma_sink_permutes(v@, 0);
    }
    let pos = sink_exec(v, 0);
    sift_up_exec(v, pos);
    root
}

/// Position of the highest-ranked packet; see `top_rank_of`.
pub fn top_rank_index<P: Packet>(v: &Vec<P>) -> (i: usize)
    requires
        v@.len() > 0,
    ensures
        i == top_rank_of(v@),
        i < v@.len(),
{
    let mut best: usize = 0;
    let mut best_seq = v[0].sequence_number();
    let mut k: usize = 1;
    assert(v@.take(1).drop_last() =~= Seq::<P>::empty());
    while k < v.len()
        invariant
            1 <= k <= v@.len(),
            best < k,
            best == top_rank_of(v@.take(k as int)),
            best_seq == v@[best as int].sequence(),
        decreases v@.len() - k,
    {
        let s = v[k].sequence_number();
        let ghost prefix = v@.take(k as int + 1);
        assert(prefix.drop_last() =~= v@.take(k as int));
        assert(prefix.last() == v@[k as int]);
        assert(prefix[best as int] == v@[best as int]);
        if !sequence_before(best_seq, s) {
            best = k;
            best_seq = s;
        }
        k = k + 1;
    }
    assert(v@.take(k as int) =~= v@);
    best
}

} // verus!

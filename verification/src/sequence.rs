//! Wrapping 16-bit sequence numbers as used on the wire (RFC 3550 style).

use vstd::prelude::*;

verus! {

/// Lowest sequence number of the window just below the wrap-around point.
pub const WRAPPING_WINDOW_START: u16 = 65527;

/// Highest sequence number of the window just above the wrap-around point.
pub const WRAPPING_WINDOW_END: u16 = 8;

/// The sequence number that follows `s`: one more, and 0 after 65535.
pub open spec fn seq_succ(s: u16) -> u16 {
    if s == u16::MAX {
        0
    } else {
        (s + 1) as u16
    }
}

/// `s` advanced by `k` steps.
pub open spec fn seq_advance(s: u16, k: nat) -> u16
    decreases k,
{
    if k == 0 {
        s
    } else {
        seq_succ(seq_advance(s, (k - 1) as nat))
    }
}

/// `a` lies near the top of the range and `b` near the bottom, so going
/// from `a` to `b` crossed the wrap-around point.
pub open spec fn did_wrap(a: u16, b: u16) -> bool {
    a >= WRAPPING_WINDOW_START && b <= WRAPPING_WINDOW_END
}

/// `a` comes before `b` in playback order: plain numeric order, except that
/// numbers just below the wrap-around point come before numbers just above it.
pub open spec fn seq_before(a: u16, b: u16) -> bool {
    if did_wrap(a, b) {
        true
    } else if did_wrap(b, a) {
        false
    } else {
        a < b
    }
}

/// `n` lies away from the wrap-around point: above the window just above 0
/// and below the window just under 65535.
pub open spec fn in_plain_range(n: u16) -> bool {
    WRAPPING_WINDOW_END < n < WRAPPING_WINDOW_START
}

/// The sequence number that follows `current`, wrapping from 65535 to 0.
pub fn next_sequence(current: u16) -> (next: u16)
    ensures
        next == seq_succ(current),
        next as int == (current as int + 1) % 65536,
{
    if current == u16::MAX {
        0
    } else {
        current + 1
    }
}

/// Whether `a` comes before `b` in playback order.
pub fn sequence_before(a: u16, b: u16) -> (before: bool)
    ensures
        before == seq_before(a, b),
        a >= 65527 && b <= 8 ==> before,
        b >= 65527 && a <= 8 ==> !before,
        !(a >= 65527 && b <= 8) && !(b >= 65527 && a <= 8) ==> (before == (a < b)),
{
    if a >= WRAPPING_WINDOW_START && b <= WRAPPING_WINDOW_END {
        true
    } else if b >= WRAPPING_WINDOW_START && a <= WRAPPING_WINDOW_END {
        false
    } else {
        a < b
    }
}

/// Advancing `k` times from `s` lands on `(s + k) mod 65536`; in particular
/// 65536 steps return to where they started.
pub proof fn lemma_advance_is_modular(s: u16, k: nat)
    ensures
        seq_advance(s, k) as int == (s as int + k) % 65536,
    decreases k,
{
    if k > 0 {
        lemma_advance_is_modular(s, (k - 1) as nat);
    }
}

/// The successor of a sequence number always comes after it in playback order.
pub proof fn lemma_successor_is_later(s: u16)
    ensures
        seq_before(s, seq_succ(s)),
        !seq_before(seq_succ(s), s),
{
}

/// Playback order is plain numeric order except across the wrap-around
/// point: a number in the top 9 comes before a number in the bottom 9; in
/// particular it is numeric order between numbers away from the wrap-around
/// point, and so transitive there.
pub proof fn lemma_before_numeric(a: u16, b: u16, c: u16)
    ensures
        a >= 65527 && b <= 8 ==> seq_before(a, b),
        b >= 65527 && a <= 8 ==> !seq_before(a, b),
        !(a >= 65527 && b <= 8) && !(b >= 65527 && a <= 8) ==> (seq_before(a, b) <==> a < b),
        in_plain_range(a) && in_plain_range(b) ==> (seq_before(a, b) <==> a < b),
        in_plain_range(a) && in_plain_range(b) && in_plain_range(c) && seq_before(a, b)
            && seq_before(b, c) ==> seq_before(a, c),
{
}

/// Playback order is asymmetric and total on distinct sequence numbers.
pub proof fn lemma_before_asymmetric_total(a: u16, b: u16)
    ensures
        seq_before(a, b) ==> !seq_before(b, a),
        a != b ==> (seq_before(a, b) || seq_before(b, a)),
        !seq_before(a, a),
{
}

} // verus!

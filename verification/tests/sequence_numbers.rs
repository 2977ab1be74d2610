use lightwire::sequence::{next_sequence, sequence_before};

#[test]
fn next_sequence_counts_up() {
    assert_eq!(next_sequence(0), 1);
    assert_eq!(next_sequence(41), 42);
    assert_eq!(next_sequence(u16::MAX - 1), u16::MAX);
}

#[test]
fn next_sequence_wraps_to_zero() {
    assert_eq!(next_sequence(u16::MAX), 0);
}

#[test]
fn next_sequence_period_is_65536() {
    let mut s: u16 = 1234;
    for _ in 0..65536u32 {
        s = next_sequence(s);
    }
    assert_eq!(s, 1234);
}

#[test]
fn before_follows_numeric_order_away_from_wrap() {
    assert!(sequence_before(3, 7));
    assert!(!sequence_before(7, 3));
    assert!(!sequence_before(5, 5));
    assert!(sequence_before(1000, 60000));
}

#[test]
fn before_inverts_across_wrap_window() {
    assert!(sequence_before(u16::MAX, 0));
    assert!(!sequence_before(0, u16::MAX));
    assert!(sequence_before(65527, 8));
    assert!(!sequence_before(8, 65527));
}

#[test]
fn before_respects_window_edges() {
    // just outside the window on either side the numeric order applies
    assert!(!sequence_before(65526, 8));
    assert!(sequence_before(8, 65526));
    assert!(!sequence_before(65527, 9));
    assert!(sequence_before(9, 65527));
}

#[test]
fn successor_is_always_later() {
    for s in 0..=u16::MAX {
        assert!(sequence_before(s, next_sequence(s)));
        assert!(!sequence_before(next_sequence(s), s));
    }
}

use lightwire::jitter::JitterBuffer;
use lightwire::packet::{AudioPacket, OpusPacket, Packet};

fn rtp(seq: u16) -> OpusPacket {
    OpusPacket { seq }
}

fn audio(seq: u16, byte: u8) -> AudioPacket {
    AudioPacket { id: Some("peer".to_string()), seq, sample_rate: 48000, packet: vec![byte] }
}

#[test]
fn new_buffer_is_empty() {
    let mut jitter = JitterBuffer::<OpusPacket, 10>::new();
    assert_eq!(jitter.len(), 0);
    assert_eq!(jitter.pop(), None);
}

#[test]
fn first_packet_is_played() {
    let mut jitter = JitterBuffer::<OpusPacket, 10>::new();
    jitter.push(rtp(0));
    assert_eq!(jitter.len(), 1);
    assert_eq!(jitter.pop(), Some(rtp(0)));
    assert_eq!(jitter.len(), 0);
}

#[test]
fn reorders_racing_packets() {
    let mut jitter = JitterBuffer::<OpusPacket, 10>::new();
    jitter.push(rtp(0));
    assert_eq!(jitter.pop(), Some(rtp(0)));
    jitter.push(rtp(2));
    jitter.push(rtp(1));
    assert_eq!(jitter.pop(), Some(rtp(1)));
    assert_eq!(jitter.pop(), Some(rtp(2)));
}

#[test]
fn reorders_before_first_playback() {
    let mut jitter = JitterBuffer::<OpusPacket, 8>::new();
    jitter.push(rtp(11));
    jitter.push(rtp(10));
    assert_eq!(jitter.pop(), Some(rtp(10)));
    assert_eq!(jitter.pop(), Some(rtp(11)));
    assert_eq!(jitter.pop(), None);
}

#[test]
fn discards_already_played_packets() {
    let mut jitter = JitterBuffer::<OpusPacket, 10>::new();
    jitter.push(rtp(0));
    assert_eq!(jitter.pop(), Some(rtp(0)));
    jitter.push(rtp(0));
    assert_eq!(jitter.len(), 0);
    jitter.push(rtp(1));
    assert_eq!(jitter.pop(), Some(rtp(1)));
}

#[test]
fn discards_duplicated_packets() {
    let mut jitter = JitterBuffer::<OpusPacket, 10>::new();
    for _ in 0..5 {
        jitter.push(rtp(0));
    }
    assert_eq!(jitter.len(), 1);
    assert_eq!(jitter.pop(), Some(rtp(0)));
    assert_eq!(jitter.len(), 0);
    assert_eq!(jitter.pop(), None);
}

#[test]
fn handles_packet_loss_correctly() {
    let mut jitter = JitterBuffer::<OpusPacket, 10>::new();
    for s in [0u16, 1, 2, 3, 5] {
        jitter.push(rtp(s));
    }
    assert_eq!(jitter.pop(), Some(rtp(0)));
    assert_eq!(jitter.pop(), Some(rtp(1)));
    assert_eq!(jitter.pop(), Some(rtp(2)));
    assert_eq!(jitter.pop(), Some(rtp(3)));
    assert_eq!(jitter.pop(), None);
    assert_eq!(jitter.pop(), Some(rtp(5)));
}

#[test]
fn handles_wrapping_sequence_numbers() {
    let mut jitter = JitterBuffer::<OpusPacket, 10>::new();
    let order = [u16::MAX - 2, u16::MAX - 1, u16::MAX, 0, 1, 2];
    for s in order {
        jitter.push(rtp(s));
    }
    assert_eq!(jitter.len(), 6);
    for s in order {
        assert_eq!(jitter.pop(), Some(rtp(s)));
    }
    assert_eq!(jitter.len(), 0);
}

#[test]
fn handles_reordering_of_wrapping_sequence_numbers() {
    let mut jitter = JitterBuffer::<OpusPacket, 10>::new();
    for s in [u16::MAX - 1, 0, 2, u16::MAX - 2, 1, u16::MAX] {
        jitter.push(rtp(s));
    }
    assert_eq!(jitter.len(), 6);
    for s in [u16::MAX - 2, u16::MAX - 1, u16::MAX, 0, 1, 2] {
        assert_eq!(jitter.pop(), Some(rtp(s)));
    }
    assert_eq!(jitter.len(), 0);
}

#[test]
fn full_buffer_drops_earliest_packet() {
    let mut jitter = JitterBuffer::<OpusPacket, 3>::new();
    jitter.push(rtp(10));
    jitter.push(rtp(11));
    jitter.push(rtp(12));
    jitter.push(rtp(13));
    assert_eq!(jitter.len(), 3);
    assert_eq!(jitter.pop(), Some(rtp(11)));
    assert_eq!(jitter.pop(), Some(rtp(12)));
    assert_eq!(jitter.pop(), Some(rtp(13)));
}

#[test]
fn packet_far_ahead_restarts_buffer() {
    let mut jitter = JitterBuffer::<OpusPacket, 8>::new();
    jitter.push(rtp(100));
    jitter.push(rtp(101));
    jitter.push(rtp(200));
    assert_eq!(jitter.len(), 1);
    assert_eq!(jitter.pop(), Some(rtp(200)));
}

#[test]
fn packet_within_window_is_kept() {
    let mut jitter = JitterBuffer::<OpusPacket, 8>::new();
    jitter.push(rtp(100));
    jitter.push(rtp(108));
    assert_eq!(jitter.len(), 2);
    jitter.push(rtp(109));
    assert_eq!(jitter.len(), 1);
}

#[test]
fn audio_packets_keep_their_payload() {
    let mut jitter = JitterBuffer::<AudioPacket, 8>::new();
    jitter.push(audio(7, 0xbb));
    jitter.push(audio(6, 0xaa));
    let first = jitter.pop().unwrap();
    assert_eq!(first.seq, 6);
    assert_eq!(first.packet, vec![0xaa]);
    let second = jitter.pop().unwrap();
    assert_eq!(second.sequence_number(), 7);
    assert_eq!(second.packet, vec![0xbb]);
}

#[test]
fn sequence_number_reads_the_packet() {
    assert_eq!(rtp(65000).sequence_number(), 65000);
    assert_eq!(audio(3, 1).sequence_number(), 3);
}

#[test]
fn zero_capacity_keeps_latest_packet() {
    let mut jitter = JitterBuffer::<OpusPacket, 0>::new();
    jitter.push(rtp(1));
    assert_eq!(jitter.len(), 1);
    jitter.push(rtp(2));
    assert_eq!(jitter.len(), 1);
    assert_eq!(jitter.pop(), Some(rtp(2)));
}

#[test]
fn expected_packet_found_anywhere_in_buffer() {
    let mut jitter = JitterBuffer::<OpusPacket, 8>::new();
    jitter.push(rtp(20));
    assert_eq!(jitter.pop(), Some(rtp(20)));
    jitter.push(rtp(23));
    jitter.push(rtp(22));
    jitter.push(rtp(21));
    assert_eq!(jitter.pop(), Some(rtp(21)));
    assert_eq!(jitter.pop(), Some(rtp(22)));
    assert_eq!(jitter.pop(), Some(rtp(23)));
    assert_eq!(jitter.pop(), None);
}

#[test]
fn far_ahead_check_uses_heap_scan() {
    let mut jitter = JitterBuffer::<OpusPacket, 8>::new();
    for s in [0u16, 65527, 100, 109] {
        jitter.push(rtp(s));
    }
    assert_eq!(jitter.len(), 4);
    assert_eq!(jitter.pop(), Some(rtp(100)));
}

#[derive(Clone, Debug, PartialEq)]
struct Probe {
    seq: u16,
}

impl jittr::Packet for Probe {
    fn sequence_number(&self) -> u16 {
        self.seq
    }
}

fn next_random(state: &mut u64) -> u64 {
    *state = state.wrapping_mul(6364136223846793005).wrapping_add(1442695040888963407);
    *state >> 33
}

fn compare_with_jittr<const S: u8>(seed: u64, spread: u64, base_start: u16) {
    let mut state = seed;
    let mut ours = JitterBuffer::<OpusPacket, S>::new();
    let mut theirs = jittr::JitterBuffer::<Probe, S>::new();
    let mut base: u16 = base_start;
    for _ in 0..4000 {
        let r = next_random(&mut state);
        if r % 3 == 0 {
            let got = ours.pop().map(|p| p.seq);
            let want = theirs.pop().map(|p| p.seq);
            assert_eq!(got, want);
            base = base.wrapping_add(1);
        } else {
            let off = (next_random(&mut state) % spread) as u16;
            let seq = base.wrapping_add(off).wrapping_sub((spread / 2) as u16);
            ours.push(rtp(seq));
            theirs.push(Probe { seq });
        }
    }
}

#[test]
fn matches_reference_buffer_near_wrap() {
    for seed in 1..40u64 {
        compare_with_jittr::<8>(seed, 24, 65500);
        compare_with_jittr::<10>(seed, 40, 65530);
        compare_with_jittr::<3>(seed, 12, 65520);
    }
}

#[test]
fn matches_reference_buffer_wide_spread() {
    for seed in 1..40u64 {
        compare_with_jittr::<8>(seed, 70000, 0);
        compare_with_jittr::<1>(seed, 20, 65534);
        compare_with_jittr::<0>(seed, 20, 100);
    }
}

use lightwire::decoder::DecodingEngine;
use lightwire::encoder::EncodingEngine;
use lightwire::packet::AudioPacket;
use lightwire::player::{PlaybackAction, PlayingEngine};

fn from(id: &str, seq: u16, rate: u32) -> AudioPacket {
    AudioPacket { id: Some(id.to_string()), seq, sample_rate: rate, packet: vec![seq as u8] }
}

#[test]
fn decoding_engine_routes_to_added_target() {
    let mut engine: DecodingEngine<u32> = DecodingEngine::create();
    assert!(engine.get_target("alice").is_none());
    engine.add_target("alice".to_string(), 1);
    engine.add_target("bob".to_string(), 2);
    assert_eq!(engine.get_target("alice"), Some(&1));
    assert_eq!(engine.get_target("bob"), Some(&2));
    assert_eq!(engine.route(&from("bob", 0, 48000)), Some(&2));
    assert_eq!(engine.route(&from("carol", 0, 48000)), None);
}

#[test]
fn decoding_engine_add_replaces_target() {
    let mut engine: DecodingEngine<&str> = DecodingEngine::create();
    engine.add_target("alice".to_string(), "old");
    engine.add_target("alice".to_string(), "new");
    assert_eq!(engine.get_target("alice"), Some(&"new"));
}

#[test]
fn encoding_engine_numbers_frames_consecutively() {
    let mut engine = EncodingEngine::with_start_sequence(48000, 10);
    let a = engine.frame_encoded(vec![1, 2]);
    let b = engine.frame_encoded(vec![3]);
    assert_eq!(a, AudioPacket { id: None, seq: 11, sample_rate: 48000, packet: vec![1, 2] });
    assert_eq!(b.seq, 12);
    assert_eq!(engine.current_sequence(), 12);
    assert_eq!(engine.get_sample_rate(), 48000);
}

#[test]
fn encoding_engine_wraps_sequence() {
    let mut engine = EncodingEngine::with_start_sequence(16000, u16::MAX);
    assert_eq!(engine.frame_encoded(vec![]).seq, 0);
    assert_eq!(engine.frame_encoded(vec![]).seq, 1);
}

#[test]
fn encoding_engine_create_keeps_rate() {
    let mut engine = EncodingEngine::create(24000);
    assert_eq!(engine.get_sample_rate(), 24000);
    let start = engine.current_sequence();
    let p = engine.frame_encoded(vec![9]);
    assert_eq!(p.seq, start.wrapping_add(1));
    assert_eq!(p.sample_rate, 24000);
    assert_eq!(p.id, None);
}

#[test]
fn player_ignores_unknown_client() {
    let mut engine = PlayingEngine::create();
    assert!(!engine.deliver(from("alice", 1, 48000)));
    assert!(matches!(engine.playback_tick("alice"), PlaybackAction::NoClient));
    assert!(!engine.has_target("alice"));
}

#[test]
fn player_plays_delivered_packets_in_order() {
    let mut engine = PlayingEngine::create();
    engine.add_target("alice".to_string());
    assert!(engine.has_target("alice"));
    assert!(matches!(engine.playback_tick("alice"), PlaybackAction::Silence));
    assert!(engine.deliver(from("alice", 6, 48000)));
    assert!(engine.deliver(from("alice", 5, 48000)));
    match engine.playback_tick("alice") {
        PlaybackAction::Play { packet, create_decoder } => {
            assert_eq!(packet.seq, 5);
            assert!(create_decoder);
        }
        other => panic!("unexpected {:?}", other),
    }
    match engine.playback_tick("alice") {
        PlaybackAction::Play { packet, create_decoder } => {
            assert_eq!(packet.seq, 6);
            assert!(!create_decoder);
        }
        other => panic!("unexpected {:?}", other),
    }
    assert!(matches!(engine.playback_tick("alice"), PlaybackAction::Silence));
}

#[test]
fn player_reports_loss_then_continues() {
    let mut engine = PlayingEngine::create();
    engine.add_target("bob".to_string());
    engine.deliver(from("bob", 1, 16000));
    engine.deliver(from("bob", 3, 16000));
    assert!(matches!(engine.playback_tick("bob"), PlaybackAction::Play { .. }));
    assert!(matches!(engine.playback_tick("bob"), PlaybackAction::Silence));
    match engine.playback_tick("bob") {
        PlaybackAction::Play { packet, create_decoder } => {
            assert_eq!(packet.seq, 3);
            assert!(!create_decoder);
        }
        other => panic!("unexpected {:?}", other),
    }
}

#[test]
fn player_keeps_clients_apart() {
    let mut engine = PlayingEngine::create();
    engine.add_target("alice".to_string());
    engine.add_target("bob".to_string());
    engine.deliver(from("alice", 40, 48000));
    assert!(matches!(engine.playback_tick("bob"), PlaybackAction::Silence));
    match engine.playback_tick("alice") {
        PlaybackAction::Play { packet, .. } => assert_eq!(packet.seq, 40),
        other => panic!("unexpected {:?}", other),
    }
}

#[test]
fn player_readding_client_resets_it() {
    let mut engine = PlayingEngine::create();
    engine.add_target("alice".to_string());
    engine.deliver(from("alice", 1, 48000));
    engine.add_target("alice".to_string());
    assert!(matches!(engine.playback_tick("alice"), PlaybackAction::Silence));
}

#[test]
fn encoding_engine_kth_packet_number() {
    let start: u16 = 65530;
    let mut engine = EncodingEngine::with_start_sequence(48000, start);
    for k in 1..=20u32 {
        let p = engine.frame_encoded(vec![]);
        assert_eq!(p.seq as u32, (start as u32 + k) % 65536);
        assert_eq!(p.sample_rate, 48000);
    }
    assert_eq!(engine.current_sequence() as u32, (start as u32 + 20) % 65536);
}

#[test]
fn decoding_targets_are_the_added_ids() {
    let mut engine: DecodingEngine<usize> = DecodingEngine::create();
    let ids = ["a", "b", "a", "c"];
    for (i, id) in ids.iter().enumerate() {
        engine.add_target(id.to_string(), i);
    }
    for id in ["a", "b", "c"] {
        assert!(engine.get_target(id).is_some());
    }
    assert!(engine.get_target("d").is_none());
    assert_eq!(engine.get_target("a"), Some(&2));
}

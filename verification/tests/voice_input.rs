use lightwire::voice::{pair_channels, FrameAssembler, StreamSettings, VoiceInput};

#[test]
fn voice_input_starts_paused_with_20ms_frames() {
    let input = VoiceInput::create("mic", 2, 48000);
    assert_eq!(input.get_sample_rate(), 48000);
    assert_eq!(input.get_channels(), 2);
    assert_eq!(input.get_frame_size(), 960);
    assert!(input.is_paused());
    assert!(!input.is_stopped());
    assert_eq!(*input.device(), "mic");
}

#[test]
fn voice_input_pause_and_stop() {
    let mut input = VoiceInput::create((), 1, 44100);
    input.set_paused(false);
    assert!(!input.is_paused());
    input.set_paused(true);
    assert!(input.is_paused());
    input.stop();
    assert!(input.is_stopped());
    assert!(input.is_paused());
    assert_eq!(input.get_frame_size(), 882);
}

#[test]
fn mono_stream_settings() {
    let input = VoiceInput::create((), 1, 48000);
    assert_eq!(
        input.stream_settings(),
        StreamSettings { channels: 1, sample_rate: 48000, buffer_size: 960 }
    );
}

#[test]
fn multichannel_stream_settings_use_stereo() {
    let input = VoiceInput::create((), 6, 16000);
    assert_eq!(
        input.stream_settings(),
        StreamSettings { channels: 2, sample_rate: 16000, buffer_size: 640 }
    );
}

#[test]
fn low_sample_rate_gives_empty_frames() {
    let input = VoiceInput::create((), 1, 49);
    assert_eq!(input.get_frame_size(), 0);
}

#[test]
fn assembler_cuts_complete_frames() {
    let mut a = FrameAssembler::new(3);
    let frames = a.accept(false, &[1, 2, 3, 4, 5, 6, 7]);
    assert_eq!(frames, vec![vec![1, 2, 3], vec![4, 5, 6]]);
    let frames = a.accept(false, &[8, 9]);
    assert_eq!(frames, vec![vec![7, 8, 9]]);
    let frames = a.accept(false, &[]);
    assert!(frames.is_empty());
    assert_eq!(a.frame_size(), 3);
}

#[test]
fn assembler_holds_back_partial_frames() {
    let mut a = FrameAssembler::new(4);
    assert!(a.accept(false, &[1, 2]).is_empty());
    assert!(a.accept(false, &[3]).is_empty());
    assert_eq!(a.accept(false, &[4, 5]), vec![vec![1, 2, 3, 4]]);
}

#[test]
fn assembler_ignores_deliveries_while_paused() {
    let mut a = FrameAssembler::new(2);
    assert!(a.accept(false, &[1]).is_empty());
    assert!(a.accept(true, &[2, 3, 4, 5]).is_empty());
    assert_eq!(a.accept(false, &[6]), vec![vec![1, 6]]);
}

#[test]
fn assembler_works_on_float_samples() {
    let mut a = FrameAssembler::new(2);
    let frames = a.accept(false, &[0.5f32, -0.5, 0.25]);
    assert_eq!(frames, vec![vec![0.5f32, -0.5]]);
}

#[test]
fn pairs_interleaved_samples() {
    assert_eq!(pair_channels(&[1, 2, 3, 4]), vec![(1, 2), (3, 4)]);
    assert!(pair_channels::<i16>(&[]).is_empty());
}

#[test]
fn capture_frame_size_doubles_for_stereo() {
    assert_eq!(VoiceInput::create((), 1, 48000).capture_frame_size(), 960);
    assert_eq!(VoiceInput::create((), 2, 48000).capture_frame_size(), 1920);
    assert_eq!(VoiceInput::create((), 2, 44150).capture_frame_size(), 1766);
}

#[test]
fn settings_survive_pause_and_stop() {
    let mut input = VoiceInput::create(7u8, 2, 32000);
    for paused in [false, true, false] {
        input.set_paused(paused);
        assert_eq!(input.get_sample_rate(), 32000);
    }
    input.stop();
    assert_eq!(input.get_sample_rate(), 32000);
    assert_eq!(input.get_channels(), 2);
    assert_eq!(input.get_frame_size(), 640);
    assert_eq!(*input.device(), 7u8);
}

#[test]
fn frames_across_many_deliveries() {
    let mut a = FrameAssembler::new(4);
    let mut out: Vec<u32> = Vec::new();
    let mut delivered: Vec<u32> = Vec::new();
    let mut next = 0u32;
    for len in [3usize, 0, 7, 1, 9, 2, 5] {
        let data: Vec<u32> = (next..next + len as u32).collect();
        next += len as u32;
        delivered.extend_from_slice(&data);
        for frame in a.accept(false, &data) {
            assert_eq!(frame.len(), 4);
            out.extend(frame);
        }
    }
    assert_eq!(out.len(), delivered.len() / 4 * 4);
    assert_eq!(&out[..], &delivered[..out.len()]);
    assert_eq!(a.pending_len(), delivered.len() % 4);
}

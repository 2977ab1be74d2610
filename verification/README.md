# lightwire

An experimental audio packetizer for voice chat. Microphone frames are
encoded, numbered and sent as packets; packets from remote clients go
through a per-client jitter buffer and are decoded and played.

- `src/` is the verified library (Verus): wrapping sequence numbers
  (`sequence`), packets (`packet`), a binary heap ranked by playback order
  (`heap`), the jitter buffer (`jitter`), a client
  registry (`registry`), and the bookkeeping of the decoding, encoding,
  playing and capture parts of the engine (`decoder`, `encoder`, `player`,
  `voice`). Each public function carries its contract; the laws of the
  library are the public proof functions.
- The jitter buffer behaves as the `jittr` crate's `JitterBuffer` does: a
  binary heap with the same sift rules, the same wrap-aware order and the
  same rules for dropping, discarding and restarting. It is implemented in
  `src/` because Verus does not accept an implementation of `jittr::Packet`
  (its `Unpin` supertrait is not supported); `tests/jitter_buffer.rs` runs
  both side by side on long random streams and checks they agree.
- `app/` is the program around it: audio devices (cpal, rodio), the Opus
  codec, the float arithmetic on samples and the async plumbing (tokio).
- `tests/` runs the library on concrete values.

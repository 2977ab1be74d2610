//! Verified core of a voice packetizer: sequence numbering, frame
//! assembly, jitter buffering and the routing decisions of the audio engine.

pub mod sequence;
pub mod packet;
pub mod heap;
pub mod jitter;
pub mod registry;
pub mod decoder;
pub mod player;
pub mod encoder;
pub mod voice;

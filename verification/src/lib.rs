//! Core logic of a proximity voice-chat client: the datagram framing spoken
//! with the relay server, the per-peer sample queues that sit between the
//! network, the resampler and the sound card, the mixing plan that averages
//! the peers into one output block, the control-message rules, and the
//! acknowledgement-retry rule of the handshake sender.
//!
//! Samples themselves are a type parameter: the queues and the mixing plan
//! move and count them, while the arithmetic on them (codec, resampler,
//! averaging) happens in the program around this library.

pub mod buffers;
pub mod chunks;
pub mod control;
pub mod json;
pub mod packet;
pub mod retry;

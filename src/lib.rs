//! Batching of queued engine.io packets into HTTP long-polling payloads.
//!
//! * `packet`: the packets and their wire text.
//! * `queue`: the peekable, closeable queue of outbound packets.
//! * `encoder`: the three payload encoders and their frame grammars.
//! * `laws`: what holds of the encoders across inputs and calls.

pub mod encoder;
pub mod laws;
pub mod packet;
pub mod queue;

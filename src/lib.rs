//! Decoding of Universal MIDI Packet word streams, source routing with
//! per-source filters, and the registry of connected endpoints.

pub mod decoder;
pub mod drivers;
pub mod endpoints;
pub mod event;
pub mod filter;
pub mod messages;
pub mod publish;

//! Core of a real-time MIDI playback engine.
//!
//! The crate decodes standard MIDI file bytes into a time-ordered sequence of
//! wire-encoded protocol messages, plans their time-accurate batched delivery,
//! and models the discovery of wired and wireless output devices.

pub mod devices;
pub mod errors;
pub mod player;
pub mod sequence;
pub mod sink;
pub mod smf;
pub mod sorting;
pub mod tempo;
pub mod timefmt;
pub mod tree;

pub use sink::pack_ble_midi_message;

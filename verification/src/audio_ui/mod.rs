//! The menu of the audio bridge: pick the real microphone and speaker, switch the bridge
//! on.
pub mod bridge;
pub mod coreaudio;
pub mod menu;
pub mod settings;

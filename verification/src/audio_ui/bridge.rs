//! The audio bridge, as the menu sees it.
use vstd::prelude::*;
use crate::audio::bridge;
use crate::audio::bridge::{clamped, once_started, once_stopped, shown, Bridge};

verus! {

/// A device that can be picked.
#[derive(Debug)]
pub struct Device {
    pub uid: String,
    pub name: String,
}

/// A device that can be picked.
pub ghost struct DeviceRow {
    pub uid: Seq<char>,
    pub name: Seq<char>,
}

impl Device {
    pub open spec fn row(self) -> DeviceRow {
        DeviceRow { uid: self.uid@, name: self.name@ }
    }
}

/// What the devices of a list are.
pub open spec fn rows(v: Seq<Device>) -> Seq<DeviceRow> {
    v.map_values(|d: Device| d.row())
}

/// Starts the bridge, given what starting an engine came to.
pub fn start(state: &mut Bridge, started: Result<(), String>) -> (r: Result<(), String>)
    ensures
        *final(state) == once_started(*old(state), started is Ok),
        match started {
            Ok(_) => r is Ok,
            Err(why) => r matches Err(e) && e@ == why@,
        },
{
    bridge::start(state, started)
}

/// Stops the bridge.
pub fn stop(state: &mut Bridge)
    ensures
        *final(state) == once_stopped(*old(state)),
{
    bridge::stop(state)
}

/// Whether the bridge is running.
pub fn is_running(state: &Bridge) -> (r: bool)
    ensures
        r == state.running,
{
    bridge::is_running(state)
}

/// Whether the microphone is being run through the suppressor.
pub fn denoise(state: &Bridge) -> (r: bool)
    ensures
        r == state.denoise,
{
    bridge::denoise(state)
}

/// Turns noise suppression on or off. It outlives any one engine, so it can be set before
/// anything has been started and is not lost when another device is picked.
pub fn set_denoise(state: &mut Bridge, on: bool)
    ensures
        *final(state) == (Bridge { denoise: on, ..*old(state) }),
{
    bridge::set_denoise(state, on)
}

/// The voice probability below which the microphone is faded out, as bits.
pub fn voice_threshold(state: &Bridge) -> (r: u32)
    ensures
        r == state.threshold,
{
    bridge::voice_threshold(state)
}

/// Sets the voice gate.
pub fn set_voice_threshold(state: &mut Bridge, bits: u32)
    ensures
        *final(state) == (Bridge { threshold: clamped(bits), ..*old(state) }),
{
    bridge::set_voice_threshold(state, bits)
}

/// How likely the model thought the last frame was speech, given what the engine heard.
/// None when nothing is running for it to have an opinion about.
pub fn voice<V>(state: &Bridge, heard: V) -> (r: Option<V>)
    ensures
        r == shown(*state, heard),
{
    bridge::stats(state, heard)
}

} // verus!

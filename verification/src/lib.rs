use vstd::prelude::*;

pub mod android;
pub mod apps;
pub mod audio;
pub mod audio_ui;
pub mod cli;
pub mod disk;
pub mod display;
pub mod json;
pub mod order;
pub mod packages;
pub mod paths;
pub mod resource;
pub mod text;

verus! {

} // verus!

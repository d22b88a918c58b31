//! Remembers which hardware was picked and how the microphone is treated.
//!
//! Names change and are not unique, so nothing but the UID is stored for a device.
use vstd::prelude::*;
use crate::paths;
use crate::text::text_opt;

verus! {

/// What was picked. Every field is optional: a file written before a field existed reads
/// back as nobody having chosen yet.
#[derive(Debug)]
pub struct Settings {
    pub input_uid: Option<String>,
    pub output_uid: Option<String>,
    pub denoise: Option<bool>,
    /// Where the voice gate was left, as the bits of a single-precision number.
    pub voice_threshold: Option<u32>,
}

impl Settings {
    /// Nothing picked.
    pub open spec fn is_blank(self) -> bool {
        &&& self.input_uid is None
        &&& self.output_uid is None
        &&& self.denoise is None
        &&& self.voice_threshold is None
    }

    /// Nothing picked.
    pub fn blank() -> (r: Self)
        ensures
            r.is_blank(),
    {
        Settings { input_uid: None, output_uid: None, denoise: None, voice_threshold: None }
    }

    /// What a file was read as. Anything unreadable is treated as no choice yet: a menu
    /// that quietly forgets is better than one that refuses to open.
    pub fn load(parsed: Option<Settings>) -> (r: Self)
        ensures
            match parsed {
                Some(s) => r == s,
                None => r.is_blank(),
            },
    {
        match parsed {
            Some(s) => s,
            None => Settings::blank(),
        }
    }

    /// Whether the suppressor is on. It is off until somebody turns it on.
    pub fn denoises(&self) -> (r: bool)
        ensures
            r == (self.denoise == Some(true)),
    {
        match self.denoise {
            Some(on) => on,
            None => false,
        }
    }

    /// Where the voice gate is, as bits. It is open until somebody sets it.
    pub fn gate_bits(&self) -> (r: u32)
        ensures
            r == (match self.voice_threshold {
                Some(bits) => bits,
                None => 0,
            }),
    {
        match self.voice_threshold {
            Some(bits) => bits,
            None => 0,
        }
    }

    /// Whether both a microphone and a speaker were picked.
    pub fn is_picked(&self) -> (r: bool)
        ensures
            r == (self.input_uid is Some && self.output_uid is Some),
    {
        self.input_uid.is_some() && self.output_uid.is_some()
    }
}

/// Where the settings are kept: the directory, and the file in it.
pub fn path(data_dir: &Option<String>) -> (r: Result<(String, String), String>)
    ensures
        match (r, text_opt(*data_dir)) {
            (Ok((dir, file)), Some(base)) => {
                &&& dir@ == paths::below(base, "wsctl"@)
                &&& file@ == paths::below(dir@, "audio-ui.json"@)
            },
            (Err(e), None) => e@ == "no Application Support directory"@,
            _ => false,
        },
{
    match data_dir {
        Some(base) => {
            let dir = paths::join(base, "wsctl");
            let file = paths::join(&dir, "audio-ui.json");
            Ok((dir, file))
        },
        None => Err("no Application Support directory".to_owned()),
    }
}

} // verus!

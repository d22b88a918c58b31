//! What the echo canceller is told, and when.
//!
//! The canceller's own delay estimator runs the alignment, and the figure the bridge
//! works out is only a starting hint. Both streams are mono and are fed one frame of ten
//! milliseconds at a time.
use vstd::prelude::*;

verus! {

/// The highest rate whose frames the canceller can count.
pub const MAX_RATE: u32 = 6_553_599;

/// The canceller, but for the audio itself.
#[derive(Debug, Clone, Copy, PartialEq, Eq, Structural)]
pub struct Canceller {
    /// Samples in one frame of the capture stream.
    pub frame: usize,
    /// Where it was last told to start looking, in milliseconds.
    pub hint_ms: i32,
    /// Where it has aligned its reference, in milliseconds.
    pub found_delay_ms: i32,
    /// Whether it has a noise suppressor of its own.
    pub has_suppressor: bool,
    /// Whether that is running.
    pub suppressing: bool,
}

impl Canceller {
    /// A canceller that has heard nothing. `hint_ms` is where to start looking, not where
    /// the echo is.
    pub fn new(capture_rate: u32, hint_ms: i32, has_suppressor: bool) -> (r: Self)
        requires
            capture_rate <= MAX_RATE,
        ensures
            r == (Canceller {
                frame: (capture_rate / 100) as usize,
                hint_ms,
                found_delay_ms: 0,
                has_suppressor,
                suppressing: true,
            }),
    {
        Canceller {
            frame: (capture_rate / 100) as usize,
            hint_ms,
            found_delay_ms: 0,
            has_suppressor,
            suppressing: true,
        }
    }

    /// Samples in one frame of the capture stream.
    pub fn frame(&self) -> (r: usize)
        ensures
            r == self.frame,
    {
        self.frame
    }

    /// Where the canceller has actually aligned its reference. A figure near zero while
    /// audio is playing means that the estimator has not found the echo.
    pub fn found_delay_ms(&self) -> (r: i32)
        ensures
            r == self.found_delay_ms,
    {
        self.found_delay_ms
    }

    /// Notes where the canceller says it has aligned.
    pub fn found(&mut self, delay_ms: i32)
        ensures
            *final(self) == (Canceller { found_delay_ms: delay_ms, ..*old(self) }),
    {
        self.found_delay_ms = delay_ms;
    }

    /// Whether a hint has to be sent on: only where it has actually moved.
    pub fn hint_moves(&self, hint_ms: i32) -> (r: bool)
        ensures
            r == (hint_ms != self.hint_ms),
    {
        hint_ms != self.hint_ms
    }

    /// Where the canceller should start looking for the echo, given what sending it on
    /// came to. Says whether it moved.
    pub fn set_delay_hint_ms(&mut self, hint_ms: i32, sent: Result<(), String>) -> (r: Result<
        bool,
        String,
    >)
        ensures
            if hint_ms == old(self).hint_ms {
                r == Ok::<bool, String>(false) && *final(self) == *old(self)
            } else {
                match sent {
                    Ok(_) => r == Ok::<bool, String>(true) && *final(self) == (Canceller {
                        hint_ms,
                        ..*old(self)
                    }),
                    Err(why) => r == Err::<bool, String>(why) && *final(self) == *old(self),
                }
            },
    {
        if hint_ms == self.hint_ms {
            return Ok(false);
        }
        match sent {
            Ok(_) => {
                self.hint_ms = hint_ms;
                Ok(true)
            },
            Err(e) => Err(e),
        }
    }

    /// Whether the canceller's own suppressor has to be switched.
    pub fn suppression_moves(&self, on: bool) -> (r: bool)
        ensures
            r == (on != self.suppressing && self.has_suppressor),
    {
        on != self.suppressing && self.has_suppressor
    }

    /// Switches the canceller's own noise suppressor, given what that came to. It earns
    /// its place while it is the only one running and gets in the way the moment a better
    /// one does. Says whether it moved.
    pub fn set_noise_suppression(&mut self, on: bool, sent: Result<(), String>) -> (r: Result<
        bool,
        String,
    >)
        ensures
            if on == old(self).suppressing || !old(self).has_suppressor {
                r == Ok::<bool, String>(false) && *final(self) == *old(self)
            } else {
                match sent {
                    Ok(_) => r == Ok::<bool, String>(true) && *final(self) == (Canceller {
                        suppressing: on,
                        ..*old(self)
                    }),
                    Err(why) => r == Err::<bool, String>(why) && *final(self) == *old(self),
                }
            },
    {
        if on == self.suppressing || !self.has_suppressor {
            return Ok(false);
        }
        match sent {
            Ok(_) => {
                self.suppressing = on;
                Ok(true)
            },
            Err(e) => Err(e),
        }
    }
}

} // verus!

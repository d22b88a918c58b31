//! Which panel holds the menu bar.
use vstd::prelude::*;

pub mod agent;
pub mod arrange;
pub mod config;
pub mod key;
pub mod names;
pub mod platform;
pub mod resource;
pub mod spaces;

use crate::display::arrange::{DisplayInfo, Move};
use crate::display::config::Prefs;
use crate::display::key::DisplayKey;

verus! {

/// What a single enforcement pass did.
#[derive(Debug, Clone, Copy, PartialEq, Eq, Structural)]
pub enum Outcome {
    /// No panel has been pinned yet.
    NotConfigured,
    /// The pinned panel is not connected, so the current layout is left alone.
    Disconnected,
    /// The pinned panel already holds the menu bar.
    AlreadyMain,
    /// The arrangement was shifted to put the pinned panel back on (0,0).
    Moved(DisplayKey),
}

/// What it takes to put the pinned panel back at (0,0) if it is connected and not
/// already there: the outcome, and the moves that have to be applied for it.
pub fn enforce(prefs: &Prefs, displays: &[DisplayInfo]) -> (r: (Outcome, Vec<Move>))
    requires
        prefs.preferred_main matches Some(k) ==> arrange::can_shift(displays@, k),
    ensures
        match prefs.preferred_main {
            None => r.0 == Outcome::NotConfigured && r.1@.len() == 0,
            Some(k) => match arrange::moves_for(displays@, k) {
                None => r.0 == Outcome::Disconnected && r.1@.len() == 0,
                Some(moves) => {
                    &&& r.1@ == moves
                    &&& r.0 == (if moves.len() == 0 {
                        Outcome::AlreadyMain
                    } else {
                        Outcome::Moved(k)
                    })
                },
            },
        },
{
    match prefs.preferred_main {
        None => (Outcome::NotConfigured, Vec::new()),
        Some(k) => match arrange::plan_moves(displays, k) {
            None => (Outcome::Disconnected, Vec::new()),
            Some(moves) => {
                if moves.len() == 0 {
                    (Outcome::AlreadyMain, moves)
                } else {
                    (Outcome::Moved(k), moves)
                }
            },
        },
    }
}

} // verus!

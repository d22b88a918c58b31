//! The declarative half: what a scope says about displays.
use vstd::prelude::*;
use crate::display::config::Prefs;
use crate::display::key;
use crate::display::key::DisplayKey;
use crate::resource::{Change, ResourceId, ResourceState};

verus! {

/// Declares which panel keeps the menu bar.
#[derive(Debug, Clone, Copy)]
pub struct MainDisplay {
    pub key: DisplayKey,
}

/// One of the things that applying a change takes, in order.
#[derive(Debug, Clone, Copy, PartialEq, Eq, Structural)]
pub enum Step {
    /// Record the pin.
    SavePrefs,
    /// Correct the layout now rather than waiting for the next reconnect.
    Enforce,
    /// Install the job that keeps enforcing it.
    InstallAgent,
    /// Turn separate Spaces on.
    SeparateSpaces,
}

impl MainDisplay {
    /// The panel to pin.
    pub fn new(key: DisplayKey) -> (r: Self)
        ensures
            r.key == key,
    {
        MainDisplay { key }
    }

    /// The identity of the declaration.
    pub fn id(&self) -> (r: ResourceId)
        ensures
            r.kind@ == "display::main"@,
            r.name@ == key::written(self.key),
    {
        let name = self.key.to_text();
        ResourceId::new("display::main", &name)
    }

    /// What is there. Both halves matter: the recorded pin survives reboots, the job
    /// survives reconnects.
    pub fn detect(&self, prefs: &Prefs, agent_installed: bool) -> (r: ResourceState)
        ensures
            r == (if prefs.preferred_main == Some(self.key) && agent_installed {
                ResourceState::Present { version: None }
            } else {
                ResourceState::Absent
            }),
    {
        let pinned: bool = match prefs.preferred_main {
            Some(k) => k == self.key,
            None => false,
        };
        if pinned && agent_installed {
            ResourceState::present()
        } else {
            ResourceState::Absent
        }
    }

    /// What it takes.
    pub fn diff(&self, current: &ResourceState) -> (r: Change)
        ensures
            current is Present ==> r is NoOp,
            !(current is Present) ==> r is Create,
    {
        if current.is_present() {
            Change::NoOp
        } else {
            Change::Create
        }
    }

    /// What applying a change does, in order. A dry run does nothing.
    pub fn apply(&self, change: &Change, dry_run: bool) -> (r: Vec<Step>)
        ensures
            r@ == (if change is NoOp || dry_run {
                Seq::empty()
            } else {
                seq![Step::SavePrefs, Step::Enforce, Step::InstallAgent]
            }),
    {
        let mut out: Vec<Step> = Vec::new();
        if change.is_noop() || dry_run {
            return out;
        }
        out.push(Step::SavePrefs);
        out.push(Step::Enforce);
        out.push(Step::InstallAgent);
        assert(out@ =~= seq![Step::SavePrefs, Step::Enforce, Step::InstallAgent]);
        out
    }

    /// The preferences once the pin is recorded.
    pub fn pinned(&self, prefs: &Prefs) -> (r: Prefs)
        ensures
            r.preferred_main == Some(self.key),
    {
        Prefs { preferred_main: Some(self.key) }
    }

    /// The declaration in words.
    pub fn description(&self) -> (r: String)
        ensures
            r@ == "main display pinned to EDID serial "@ + key::hex_at_least(
                self.key.serial as nat,
                8,
            ),
    {
        let mut out: String = "main display pinned to EDID serial ".to_owned();
        let serial = self.key.serial_hex();
        out.append(serial.as_str());
        out
    }

    /// The layout is one thing, so this does not run beside others.
    pub fn parallelizable(&self) -> (r: bool)
        ensures
            !r,
    {
        false
    }
}

/// Keeps every panel's Spaces separate.
#[derive(Debug, Clone, Copy)]
pub struct SeparateSpaces;

impl SeparateSpaces {
    /// The identity of the declaration.
    pub fn id(&self) -> (r: ResourceId)
        ensures
            r.kind@ == "display::spaces"@,
            r.name@ == "separate"@,
    {
        ResourceId::new("display::spaces", "separate")
    }

    /// What is there.
    pub fn detect(&self, separate: bool) -> (r: ResourceState)
        ensures
            r == (if separate {
                ResourceState::Present { version: None }
            } else {
                ResourceState::Absent
            }),
    {
        if separate {
            ResourceState::present()
        } else {
            ResourceState::Absent
        }
    }

    /// What it takes.
    pub fn diff(&self, current: &ResourceState) -> (r: Change)
        ensures
            current is Present ==> r is NoOp,
            !(current is Present) ==> r is Create,
    {
        if current.is_present() {
            Change::NoOp
        } else {
            Change::Create
        }
    }

    /// What applying a change does. A dry run does nothing.
    pub fn apply(&self, change: &Change, dry_run: bool) -> (r: Vec<Step>)
        ensures
            r@ == (if change is NoOp || dry_run {
                Seq::empty()
            } else {
                seq![Step::SeparateSpaces]
            }),
    {
        let mut out: Vec<Step> = Vec::new();
        if change.is_noop() || dry_run {
            return out;
        }
        out.push(Step::SeparateSpaces);
        assert(out@ =~= seq![Step::SeparateSpaces]);
        out
    }

    /// The declaration in words.
    pub fn description(&self) -> (r: String)
        ensures
            r@ == "each display keeps its own Spaces"@,
    {
        "each display keeps its own Spaces".to_owned()
    }
}

} // verus!

//! Which devices are offered.
//!
//! A device carries channels in one direction only as far as this is concerned: a stream
//! configuration with no input channels is not a microphone, whatever else the device may
//! also do.
use vstd::prelude::*;
use crate::audio_ui::bridge::{rows, Device, DeviceRow};
use crate::text;
use crate::text::text_opt;

verus! {

/// Which way audio goes.
#[derive(Debug, Clone, Copy, PartialEq, Eq, Structural)]
pub enum Direction {
    Input,
    Output,
}

impl Direction {
    /// The direction in a word.
    pub fn label(&self) -> (r: String)
        ensures
            r@ == (match *self {
                Direction::Input => "input"@,
                Direction::Output => "output"@,
            }),
    {
        match self {
            Direction::Input => "input".to_owned(),
            Direction::Output => "output".to_owned(),
        }
    }
}

/// A device as the system reports it, in one direction.
#[derive(Debug)]
pub struct Seen {
    pub channels: u32,
    pub uid: Option<String>,
    pub name: Option<String>,
}

/// One of our own virtual devices. They are the far end of the bridge, never something
/// to pick as hardware.
pub open spec fn is_ours(name: Seq<char>) -> bool {
    name == "Workstation Speaker"@ || name == "Workstation Speaker Tap"@ || name
        == "Workstation Mic"@ || name == "Workstation Mic Feed"@
}

fn ours(name: &str) -> (r: bool)
    ensures
        r == is_ours(name@),
{
    text::same(name, "Workstation Speaker") || text::same(name, "Workstation Speaker Tap")
        || text::same(name, "Workstation Mic") || text::same(name, "Workstation Mic Feed")
}

/// The device that is offered, where it is: one with channels, a UID and a name, and none
/// of ours.
pub open spec fn offered(s: Seen) -> Option<DeviceRow> {
    match (text_opt(s.uid), text_opt(s.name)) {
        (Some(uid), Some(name)) => if s.channels == 0 || is_ours(name) {
            None
        } else {
            Some(DeviceRow { uid, name })
        },
        _ => None,
    }
}

/// The devices that are offered.
pub open spec fn all_offered(seen: Seq<Seen>) -> Seq<DeviceRow>
    decreases seen.len(),
{
    if seen.len() == 0 {
        Seq::empty()
    } else {
        let before = all_offered(seen.drop_last());
        match offered(seen.last()) {
            Some(d) => before.push(d),
            None => before,
        }
    }
}

/// The devices that are offered, in the order the system lists them.
pub fn devices(seen: &Vec<Seen>) -> (r: Vec<Device>)
    ensures
        rows(r@) == all_offered(seen@),
{
    let mut out: Vec<Device> = Vec::new();
    assert(rows(out@) =~= Seq::<DeviceRow>::empty());
    for i in 0..seen.len()
        invariant
            rows(out@) == all_offered(seen@.take(i as int)),
    {
        assert(seen@.take(i + 1).drop_last() =~= seen@.take(i as int));
        let one = &seen[i];
        if let (Some(uid), Some(name)) = (&one.uid, &one.name) {
            if one.channels > 0 && !ours(name) {
                let ghost before = rows(out@);
                let d = Device { uid: uid.clone(), name: name.clone() };
                let ghost row = d.row();
                out.push(d);
                assert(rows(out@) =~= before.push(row));
            }
        }
    }
    assert(seen@.take(seen@.len() as int) =~= seen@);
    out
}

/// None of our own devices is ever offered, whatever the system lists.
pub proof fn law_our_own_devices_are_never_offered(seen: Seq<Seen>, i: int)
    requires
        0 <= i < all_offered(seen).len(),
    ensures
        !is_ours(all_offered(seen)[i].name),
    decreases seen.len(),
{
    if seen.len() > 0 {
        let before = all_offered(seen.drop_last());
        if i < before.len() {
            law_our_own_devices_are_never_offered(seen.drop_last(), i);
        }
    }
}

/// Every device with a channel that way, an id and a name is offered under both, unless the name
/// is one of our own devices', and nothing else is.
pub proof fn law_every_other_device_is_offered(seen: Seq<Seen>, d: DeviceRow)
    ensures
        all_offered(seen).contains(d) <==> exists|i: int|
            {
                &&& 0 <= i < seen.len()
                &&& (#[trigger] seen[i]).channels > 0
                &&& seen[i].uid is Some
                &&& seen[i].name is Some
                &&& d.uid == seen[i].uid->0@
                &&& d.name == seen[i].name->0@
                &&& d.name != "Workstation Speaker"@
                &&& d.name != "Workstation Speaker Tap"@
                &&& d.name != "Workstation Mic"@
                &&& d.name != "Workstation Mic Feed"@
            },
    decreases seen.len(),
{
    let all = all_offered(seen);
    if seen.len() > 0 {
        let front = seen.drop_last();
        let before = all_offered(front);
        let last = seen.len() - 1;
        law_every_other_device_is_offered(front, d);
        assert forall|i: int| 0 <= i < front.len() implies front[i] == #[trigger] seen[i] by {}
        assert(seen[last] == seen.last());
        assert(all.contains(d) <==> before.contains(d) || offered(seen.last()) == Some(d)) by {
            if all.contains(d) {
                let j = choose|j: int| 0 <= j < all.len() && all[j] == d;
                if j < before.len() {
                    assert(before[j] == d);
                }
            }
            if before.contains(d) {
                let j = choose|j: int| 0 <= j < before.len() && before[j] == d;
                assert(all[j] == d);
            }
            if offered(seen.last()) == Some(d) {
                assert(all[before.len() as int] == d);
            }
        }
        if before.contains(d) {
            let i = choose|i: int|
                {
                    &&& 0 <= i < front.len()
                    &&& (#[trigger] front[i]).channels > 0
                    &&& front[i].uid is Some
                    &&& front[i].name is Some
                    &&& d.uid == front[i].uid->0@
                    &&& d.name == front[i].name->0@
                    &&& d.name != "Workstation Speaker"@
                    &&& d.name != "Workstation Speaker Tap"@
                    &&& d.name != "Workstation Mic"@
                    &&& d.name != "Workstation Mic Feed"@
                };
            assert(seen[i].channels > 0);
        }
        assert forall|i: int| 0 <= i < front.len() && (#[trigger] seen[i]).channels > 0 implies
            front[i].channels > 0 by {}
        if offered(seen.last()) == Some(d) {
            assert(seen[last].channels > 0);
        }
    }
}

} // verus!

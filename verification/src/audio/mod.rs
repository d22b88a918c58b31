//! The virtual audio devices, and the bridge between them and the real ones.
//!
//! The drivers are plug-ins that the system only loads from its own directory.
use vstd::prelude::*;

pub mod aec;
pub mod bridge;
pub mod calibrate;
pub mod correction;
pub mod denoise;
pub mod device;
pub mod resample;
pub mod ring;

use crate::paths;
use crate::text;
use crate::text::texts;

verus! {

/// Where the plug-ins are loaded from.
pub const HAL_DIR: &'static str = "/Library/Audio/Plug-Ins/HAL";

/// The four devices the two plug-ins publish, in the order a signal meets them.
pub const DEVICES: [&'static str; 4] = [
    "Workstation Speaker",
    "Workstation Speaker Tap",
    "Workstation Mic Feed",
    "Workstation Mic",
];

/// The four devices the two plug-ins publish, in the order a signal meets them.
pub open spec fn device_names() -> Seq<Seq<char>> {
    seq![
        "Workstation Speaker"@,
        "Workstation Speaker Tap"@,
        "Workstation Mic Feed"@,
        "Workstation Mic"@,
    ]
}

fn list_device_names() -> (r: Vec<String>)
    ensures
        texts(r@) == device_names(),
{
    let v: Vec<String> = vec![
        "Workstation Speaker".to_owned(),
        "Workstation Speaker Tap".to_owned(),
        "Workstation Mic Feed".to_owned(),
        "Workstation Mic".to_owned(),
    ];
    assert(texts(v@) =~= device_names());
    v
}

/// What is installed and what is published.
#[derive(Debug)]
pub struct Status {
    pub installed: Vec<String>,
    pub missing: Vec<String>,
    pub live_devices: Vec<String>,
}

/// All of some texts are among others.
pub open spec fn all_among(wanted: Seq<Seq<char>>, there: Seq<Seq<char>>) -> bool {
    forall|i: int| 0 <= i < wanted.len() ==> there.contains(#[trigger] wanted[i])
}

impl Status {
    /// Whether both plug-ins are there.
    pub fn is_installed(&self) -> (r: bool)
        ensures
            r == (self.missing@.len() == 0),
    {
        self.missing.len() == 0
    }

    /// Whether every device is published. Installed but not published normally means that
    /// the plug-in was rejected.
    pub fn is_loaded(&self) -> (r: bool)
        ensures
            r == all_among(device_names(), texts(self.live_devices@)),
    {
        let names = list_device_names();
        let ghost all = device_names();
        for i in 0..names.len()
            invariant
                texts(names@) == all,
                all == device_names(),
                forall|j: int|
                    0 <= j < i ==> texts(self.live_devices@).contains(#[trigger] all[j]),
        {
            assert(names@[i as int]@ == all[i as int]);
            if !text::any_same(&self.live_devices, &names[i]) {
                assert(!texts(self.live_devices@).contains(all[i as int]));
                return false;
            }
        }
        assert(names@.len() == all.len());
        true
    }
}

/// Where a plug-in is installed.
pub fn bundle_path(bundle: &str) -> (r: String)
    ensures
        r@ == paths::below("/Library/Audio/Plug-Ins/HAL"@, bundle@ + ".driver"@),
{
    let mut name: String = bundle.to_owned();
    name.append(".driver");
    paths::join("/Library/Audio/Plug-Ins/HAL", &name)
}

/// The devices that a report lists by name.
pub open spec fn published(names: Seq<Seq<char>>, report: Seq<char>) -> Seq<Seq<char>>
    decreases names.len(),
{
    if names.len() == 0 {
        Seq::empty()
    } else {
        let before = published(names.drop_last(), report);
        if text::occurs(report, names.last() + ":"@) {
            before.push(names.last())
        } else {
            before
        }
    }
}

/// The devices of ours that are published, from what `system_profiler` printed.
pub fn live_devices(report: &str) -> (r: Vec<String>)
    ensures
        texts(r@) == published(device_names(), report@),
{
    let names = list_device_names();
    let ghost all = device_names();
    let mut out: Vec<String> = Vec::new();
    assert(texts(out@) =~= Seq::<Seq<char>>::empty());
    for i in 0..names.len()
        invariant
            texts(names@) == all,
            texts(out@) == published(all.take(i as int), report@),
    {
        broadcast use text::lemma_texts_push;

        assert(all.take(i + 1).drop_last() =~= all.take(i as int));
        assert(names@[i as int]@ == all[i as int]);
        let mut heading: String = names[i].clone();
        heading.append(":");
        if text::contains(report, &heading) {
            out.push(names[i].clone());
        }
    }
    assert(all.take(all.len() as int) =~= all);
    out
}

/// What is installed and what is published, given which of the two plug-ins is there and
/// what `system_profiler` printed.
pub fn status(speaker: bool, microphone: bool, report: &str) -> (r: Status)
    ensures
        texts(r.installed@) == (if speaker {
            seq!["WSSpeaker"@]
        } else {
            Seq::empty()
        }) + (if microphone {
            seq!["WSMicrophone"@]
        } else {
            Seq::empty()
        }),
        texts(r.missing@) == (if speaker {
            Seq::empty()
        } else {
            seq!["WSSpeaker"@]
        }) + (if microphone {
            Seq::empty()
        } else {
            seq!["WSMicrophone"@]
        }),
        texts(r.live_devices@) == published(device_names(), report@),
{
    let mut installed: Vec<String> = Vec::new();
    let mut missing: Vec<String> = Vec::new();
    if speaker {
        installed.push("WSSpeaker".to_owned());
    } else {
        missing.push("WSSpeaker".to_owned());
    }
    if microphone {
        installed.push("WSMicrophone".to_owned());
    } else {
        missing.push("WSMicrophone".to_owned());
    }
    assert(texts(installed@) =~= (if speaker {
        seq!["WSSpeaker"@]
    } else {
        Seq::empty()
    }) + (if microphone {
        seq!["WSMicrophone"@]
    } else {
        Seq::empty()
    }));
    assert(texts(missing@) =~= (if speaker {
        Seq::empty()
    } else {
        seq!["WSSpeaker"@]
    }) + (if microphone {
        Seq::empty()
    } else {
        seq!["WSMicrophone"@]
    }));
    Status { installed, missing, live_devices: live_devices(report) }
}

/// The script that installs the plug-ins from where they were unpacked, and what it is
/// run with.
pub fn install(staged: &str) -> (r: Vec<String>)
    ensures
        texts(r@) == seq![paths::below(staged@, "install.sh"@), staged@],
{
    let v: Vec<String> = vec![paths::join(staged, "install.sh"), staged.to_owned()];
    assert(texts(v@) =~= seq![paths::below(staged@, "install.sh"@), staged@]);
    v
}

/// The script that removes the plug-ins.
pub fn uninstall(staged: &str) -> (r: Vec<String>)
    ensures
        texts(r@) == seq![paths::below(staged@, "uninstall.sh"@)],
{
    let v: Vec<String> = vec![paths::join(staged, "uninstall.sh")];
    assert(texts(v@) =~= seq![paths::below(staged@, "uninstall.sh"@)]);
    v
}

/// What a script came to, given how its status reads.
pub fn finished(script: &str, success: bool, status: &str) -> (r: Result<(), String>)
    ensures
        if success {
            r is Ok
        } else {
            r matches Err(e) && e@ == script@ + " exited with "@ + status@
        },
{
    if success {
        return Ok(());
    }
    let mut out: String = script.to_owned();
    out.append(" exited with ");
    out.append(status);
    Err(out)
}

/// A device is live exactly where the report holds its name with a colon behind it.
pub proof fn law_a_device_is_live_where_the_report_heads_it(
    names: Seq<Seq<char>>,
    report: Seq<char>,
    name: Seq<char>,
)
    ensures
        published(names, report).contains(name) <==> names.contains(name) && exists|i: int|
            0 <= i && i + name.len() + 1 <= report.len() && #[trigger] report.subrange(
                i,
                i + name.len() + 1,
            ) == name.push(':'),
    decreases names.len(),
{
    reveal_strlit(":");
    let all = published(names, report);
    let heading = name + ":"@;
    assert(heading =~= name.push(':'));
    assert(text::occurs(report, heading) <==> exists|i: int|
        0 <= i && i + name.len() + 1 <= report.len() && #[trigger] report.subrange(
            i,
            i + name.len() + 1,
        ) == name.push(':')) by {
        if text::occurs(report, heading) {
            let i = choose|i: int| text::stands_at(report, heading, i);
            assert(report.subrange(i, i + name.len() + 1) == name.push(':'));
        }
        if exists|i: int|
            0 <= i && i + name.len() + 1 <= report.len() && #[trigger] report.subrange(
                i,
                i + name.len() + 1,
            ) == name.push(':') {
            let i = choose|i: int|
                0 <= i && i + name.len() + 1 <= report.len() && #[trigger] report.subrange(
                    i,
                    i + name.len() + 1,
                ) == name.push(':');
            assert(text::stands_at(report, heading, i));
        }
    }
    if names.len() > 0 {
        let front = names.drop_last();
        let before = published(front, report);
        law_a_device_is_live_where_the_report_heads_it(front, report, name);
        if all.contains(name) {
            let j = choose|j: int| 0 <= j < all.len() && all[j] == name;
            if j < before.len() {
                assert(before[j] == name);
                let i = choose|i: int| 0 <= i < front.len() && front[i] == name;
                assert(names[i] == name);
            } else {
                assert(names[names.len() - 1] == name);
            }
        }
        if names.contains(name) && text::occurs(report, heading) {
            let i = choose|i: int| 0 <= i < names.len() && names[i] == name;
            if i < front.len() {
                assert(front[i] == name);
                let j = choose|j: int| 0 <= j < before.len() && before[j] == name;
                assert(all[j] == name);
            } else {
                assert(all[before.len() as int] == name);
            }
        }
    }
}

} // verus!

//! What running adb came to.
use vstd::prelude::*;
use crate::android::device;
use crate::android::device::{devices_in, parse_devices, picked, resolve, rows, Device, DeviceRow};
use crate::resource::Launch;
use crate::text;

verus! {

/// The devices that a run of `adb devices -l` listed, or why there is no list.
pub open spec fn listing(launch: Launch) -> Result<Seq<DeviceRow>, Seq<char>> {
    match launch {
        Launch::NotInstalled => Err(
            "adb is not installed, run `brew install android-platform-tools`"@,
        ),
        Launch::Failed(why) => Err("failed to run adb: "@ + why@),
        Launch::Ran(run) => if run.success {
            Ok(devices_in(text::lines(run.stdout@)))
        } else {
            Err("adb devices failed: "@ + text::trimmed(run.stderr@))
        },
    }
}

/// Every device adb currently sees, in whatever state.
pub fn devices(launch: &Launch) -> (r: Result<Vec<Device>, String>)
    ensures
        match r {
            Ok(v) => listing(*launch) == Ok::<Seq<DeviceRow>, Seq<char>>(rows(v@)),
            Err(e) => listing(*launch) == Err::<Seq<DeviceRow>, Seq<char>>(e@),
        },
{
    match launch {
        Launch::NotInstalled => Err(
            "adb is not installed, run `brew install android-platform-tools`".to_owned(),
        ),
        Launch::Failed(why) => {
            let mut out: String = "failed to run adb: ".to_owned();
            out.append(why.as_str());
            Err(out)
        },
        Launch::Ran(run) => {
            if run.success {
                Ok(parse_devices(&run.stdout))
            } else {
                let mut out: String = "adb devices failed: ".to_owned();
                let why = text::trim(&run.stderr);
                out.append(why.as_str());
                Err(out)
            }
        },
    }
}

/// A result is a choice, or the reason there is none.
pub open spec fn chose(r: Result<Device, String>, pick: Result<Device, Seq<char>>) -> bool {
    match (r, pick) {
        (Ok(d), Ok(p)) => d.row() == p.row(),
        (Err(e), Err(why)) => e@ == why,
        _ => false,
    }
}

/// The device to drive among those that a run of adb listed, honouring an explicit
/// serial when given.
pub fn target(launch: &Launch, wanted: Option<&str>) -> (r: Result<Device, String>)
    ensures
        match listing(*launch) {
            Err(why) => r matches Err(e) && e@ == why,
            Ok(seen) => exists|all: Seq<Device>|
                rows(all) == seen && chose(r, #[trigger] picked(all, device::wanted_text(wanted))),
        },
{
    match devices(launch) {
        Err(e) => Err(e),
        Ok(all) => {
            let r = match resolve(all.as_slice(), wanted) {
                Ok(d) => Ok(d.copied()),
                Err(e) => Err(e),
            };
            assert(chose(r, picked(all@, device::wanted_text(wanted))));
            r
        },
    }
}

/// What typing on the device came to.
pub fn typed(launch: &Launch) -> (r: Result<(), String>)
    ensures
        match *launch {
            Launch::NotInstalled => r matches Err(e) && e@
                == "adb is not installed, run `brew install android-platform-tools`"@,
            Launch::Failed(why) => r matches Err(e) && e@ == "failed to run adb: "@ + why@,
            Launch::Ran(run) => if run.success {
                r is Ok
            } else {
                r matches Err(e) && e@
                    == "adb input failed, is a text field focused on the device?"@
            },
        },
{
    match launch {
        Launch::NotInstalled => Err(
            "adb is not installed, run `brew install android-platform-tools`".to_owned(),
        ),
        Launch::Failed(why) => {
            let mut out: String = "failed to run adb: ".to_owned();
            out.append(why.as_str());
            Err(out)
        },
        Launch::Ran(run) => {
            if run.success {
                Ok(())
            } else {
                Err("adb input failed, is a text field focused on the device?".to_owned())
            }
        },
    }
}

/// Devices are listed exactly where `adb` ran and came through, and they are those it printed.
pub proof fn law_only_a_good_run_lists_devices(launch: Launch)
    ensures
        listing(launch) is Ok <==> (launch matches Launch::Ran(run) && run.success),
        listing(launch) matches Ok(seen) ==> (launch matches Launch::Ran(run) && seen == devices_in(
            text::lines(run.stdout@),
        )),
{
}

} // verus!

//! The job that keeps the menu bar pinned.
use vstd::prelude::*;
use crate::disk::agent::{escaped, xml_escape};
use crate::paths;
use crate::text;

verus! {

/// The name of the job, and of its property list inside the bundle.
pub const LABEL: &'static str = "dev.pj.workstation.display";

/// Labels earlier versions loaded. The current one is among them because it first
/// shipped that way too.
pub const LEGACY_LABELS: [&'static str; 3] = [
    "dev.pj.workstation.display",
    "com.priyanshujain.workstation.display",
    "com.priyanshujain.wsctl.display",
];

/// The file that is rewritten whenever the layout of the displays is made to last.
pub const WATCHED_PATH: &'static str =
    "/Library/Preferences/com.apple.windowserver.displays.plist";

/// The job also runs on this interval, which catches the changes that touch no file.
pub const POLL_SECONDS: u32 = 5;

/// Where the job writes what it has to say.
pub fn log_path(home: &Option<String>) -> (r: String)
    ensures
        r@ == paths::below(
            match text::text_opt(*home) {
                Some(h) => h,
                None => "."@,
            },
            "Library/Logs/wsctl-display.log"@,
        ),
{
    match home {
        Some(h) => paths::join(h, "Library/Logs/wsctl-display.log"),
        None => paths::join(".", "Library/Logs/wsctl-display.log"),
    }
}

/// The property list of the job.
pub open spec fn plist_of(label: Seq<char>, log: Seq<char>) -> Seq<char> {
    "<?xml version=\"1.0\" encoding=\"UTF-8\"?>\n<!DOCTYPE plist PUBLIC \"-//Apple//DTD PLIST 1.0//EN\" \"http://www.apple.com/DTDs/PropertyList-1.0.dtd\">\n<plist version=\"1.0\">\n<dict>\n    <key>Label</key>\n    <string>"@
        + label
        + "</string>\n    <key>BundleProgram</key>\n    <string>Contents/MacOS/"@ + "Workstation"@
        + "</string>\n    <key>ProgramArguments</key>\n    <array>\n        <string>"@
        + "Workstation"@
        + "</string>\n        <string>-v</string>\n        <string>display</string>\n        <string>apply</string>\n    </array>\n    <key>RunAtLoad</key>\n    <true/>\n    <key>WatchPaths</key>\n    <array>\n        <string>"@
        + WATCHED_PATH@
        + "</string>\n    </array>\n    <key>StartInterval</key>\n    <integer>"@
        + text::decimal(POLL_SECONDS as nat)
        + "</integer>\n    <key>ProcessType</key>\n    <string>Background</string>\n    <key>StandardOutPath</key>\n    <string>"@
        + escaped(log) + "</string>\n    <key>StandardErrorPath</key>\n    <string>"@ + escaped(log)
        + "</string>\n</dict>\n</plist>\n"@
}

/// The property list of the job. It runs one pass at login, whenever the layout is
/// made to last, and on the interval, and never stays resident.
pub fn plist_contents(label: &str, log: &str) -> (r: String)
    ensures
        r@ == plist_of(label@, log@),
{
    let log = xml_escape(log);
    let mut out: String =
        "<?xml version=\"1.0\" encoding=\"UTF-8\"?>\n<!DOCTYPE plist PUBLIC \"-//Apple//DTD PLIST 1.0//EN\" \"http://www.apple.com/DTDs/PropertyList-1.0.dtd\">\n<plist version=\"1.0\">\n<dict>\n    <key>Label</key>\n    <string>".to_owned();
    out.append(label);
    out.append("</string>\n    <key>BundleProgram</key>\n    <string>Contents/MacOS/");
    out.append("Workstation");
    out.append("</string>\n    <key>ProgramArguments</key>\n    <array>\n        <string>");
    out.append("Workstation");
    out.append(
        "</string>\n        <string>-v</string>\n        <string>display</string>\n        <string>apply</string>\n    </array>\n    <key>RunAtLoad</key>\n    <true/>\n    <key>WatchPaths</key>\n    <array>\n        <string>",
    );
    out.append(WATCHED_PATH);
    out.append("</string>\n    </array>\n    <key>StartInterval</key>\n    <integer>");
    let every = text::dec(POLL_SECONDS as u64);
    out.append(every.as_str());
    out.append(
        "</integer>\n    <key>ProcessType</key>\n    <string>Background</string>\n    <key>StandardOutPath</key>\n    <string>",
    );
    out.append(log.as_str());
    out.append("</string>\n    <key>StandardErrorPath</key>\n    <string>");
    out.append(log.as_str());
    out.append("</string>\n</dict>\n</plist>\n");
    out
}

} // verus!

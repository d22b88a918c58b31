//! The launchd job that keeps the disk report fresh.
use workstation::disk::agent::{
    domain, log_path, plist_contents, BUNDLE_ID, LABEL, LEGACY_LABELS, REFRESH_HOURS,
};

fn contents() -> String {
    plist_contents(
        "dev.pj.workstation.disk-report.1",
        "/Users/pj/Library/Logs/wsctl-disk-report.log",
    )
}

#[test]
fn plist_runs_the_unattended_refresh_from_the_bundled_copy() {
    let plist = contents();
    assert!(
        plist.contains(
            "<key>BundleProgram</key>\n    <string>Contents/MacOS/Workstation</string>"
        )
    );
    assert!(plist.contains("<string>disk</string>"));
    assert!(plist.contains("<string>agent</string>"));
    assert!(plist.contains("<string>refresh</string>"));
    assert!(
        !plist.contains("<string>audit</string>") && !plist.contains("--no-cache"),
        "the audit opens every directory, and from launchd that is a \
             permission dialog per protected folder, four times a day"
    );
}

#[test]
fn plist_does_not_scan_at_login() {
    let plist = contents();
    assert!(
        plist.contains("<key>RunAtLoad</key>\n    <false/>"),
        "a minutes-long scan must not run on every login"
    );
}

#[test]
fn plist_uses_a_calendar_schedule_not_an_interval() {
    let plist = contents();
    assert!(plist.contains("<key>StartCalendarInterval</key>"));
    assert!(
        !plist.contains("<key>StartInterval</key>"),
        "StartInterval fires missed runs on wake, which is what we are avoiding"
    );
    for hour in REFRESH_HOURS {
        assert!(
            plist.contains(&format!("<integer>{hour}</integer>")),
            "missing hour {hour}"
        );
    }
}

#[test]
fn plist_yields_to_foreground_work() {
    let plist = contents();
    assert!(plist.contains("<key>LowPriorityIO</key>\n    <true/>"));
    assert!(plist.contains("<key>Nice</key>"));
    assert!(plist.contains("<string>Background</string>"));
}

#[test]
fn paths_land_where_launchd_expects() {
    assert!(log_path(&Some("/Users/pj".to_string())).ends_with("Library/Logs/wsctl-disk-report.log"));
}

#[test]
fn plist_carries_the_tagged_label_it_is_given() {
    assert!(contents().contains("<string>dev.pj.workstation.disk-report.1</string>"));
}

#[test]
fn label_lives_under_the_bundle_id_and_the_old_ones_are_retired() {
    assert!(LABEL.starts_with(BUNDLE_ID), "{LABEL}");
    assert_ne!(LABEL, "dev.pj.workstation.display");
    assert!(
        LEGACY_LABELS.contains(&LABEL),
        "the label first shipped in ~/Library/LaunchAgents"
    );
    assert!(LEGACY_LABELS.contains(&"com.priyanshujain.wsctl.disk-report"));
}

#[test]
fn xml_special_characters_are_escaped() {
    let plist = plist_contents(LABEL, "/tmp/a&b<c>/log");
    assert!(plist.contains("/tmp/a&amp;b&lt;c&gt;/log"));
    assert!(!plist.contains("a&b<c>"));
}

#[test]
fn a_logged_in_agent_lives_in_the_gui_domain() {
    // A background-domain or session-type agent either does not run while
    // the user is logged in, or still prompts when it does. Neither helps,
    // so the job lives in the ordinary GUI domain and the closed list is
    // what keeps it from prompting.
    let found = domain("501\n").unwrap();
    assert!(found.starts_with("gui/"), "{found}");
    assert_eq!(found, "gui/501");
    assert_eq!(domain(" \n"), None);
}

//! The launchd job that keeps the pinned display in place.
use workstation::disk::agent::{xml_escape, BUNDLE_ID};
use workstation::display::agent::{
    log_path, plist_contents, LABEL, LEGACY_LABELS, POLL_SECONDS, WATCHED_PATH,
};

fn home() -> Option<String> {
    Some("/Users/me".to_string())
}

fn contents() -> String {
    plist_contents("dev.pj.workstation.display.1", "/tmp/w.log")
}

#[test]
fn plist_runs_the_one_shot_apply_from_the_bundled_copy() {
    let plist = contents();
    assert!(
        plist.contains(
            "<key>BundleProgram</key>\n    <string>Contents/MacOS/Workstation</string>"
        )
    );
    assert!(plist.contains("<string>display</string>"));
    assert!(plist.contains("<string>apply</string>"));
    assert!(plist.contains("<string>dev.pj.workstation.display.1</string>"));
}

#[test]
fn plist_raises_verbosity_so_the_log_is_not_empty() {
    // Without this the job runs at `warn` and a working trigger writes nothing.
    assert!(contents().contains("<string>-v</string>"));
}

#[test]
fn plist_is_triggered_by_the_windowserver_layout_file() {
    let plist = contents();
    assert!(plist.contains("<key>WatchPaths</key>"));
    assert!(plist.contains(WATCHED_PATH));
}

#[test]
fn plist_also_polls_on_a_timer() {
    // WatchPaths alone misses session-only layout changes, which never write the file.
    let plist = contents();
    assert!(plist.contains("<key>StartInterval</key>"));
    assert!(plist.contains(&format!("<integer>{POLL_SECONDS}</integer>")));
}

#[test]
fn plist_runs_at_login_but_does_not_stay_resident() {
    let plist = contents();
    assert!(plist.contains("<key>RunAtLoad</key>\n    <true/>"));
    // KeepAlive would restart the one-shot job forever.
    assert!(
        !plist.contains("KeepAlive"),
        "a WatchPaths job must not be kept alive"
    );
}

#[test]
fn plist_escapes_special_characters_in_paths() {
    let plist = plist_contents(LABEL, "/tmp/a&b<c>/w.log");
    assert!(plist.contains("/tmp/a&amp;b&lt;c&gt;/w.log"));
    assert!(!plist.contains("a&b"));
}

#[test]
fn plist_uses_absolute_log_path() {
    // launchd does not expand `~`, so a relative path would silently drop logs.
    let plist = plist_contents(LABEL, &log_path(&home()));
    assert!(!plist.contains("<string>~"));
}

#[test]
fn paths_land_in_the_expected_locations() {
    assert!(log_path(&home()).ends_with("Library/Logs/wsctl-display.log"));
}

#[test]
fn agent_label_lives_under_the_bundle_id_and_the_old_ones_are_retired() {
    assert!(LABEL.starts_with(BUNDLE_ID), "{LABEL}");
    assert!(
        LEGACY_LABELS.contains(&LABEL),
        "the label first shipped in ~/Library/LaunchAgents"
    );
    assert!(LEGACY_LABELS.contains(&"com.priyanshujain.wsctl.display"));
}

#[test]
fn escape_leaves_ordinary_paths_untouched() {
    assert_eq!(
        xml_escape("/Users/pj/.local/bin/wsctl"),
        "/Users/pj/.local/bin/wsctl"
    );
}

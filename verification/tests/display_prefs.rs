//! What is pinned, what panels are called and what the resources do about it.
use workstation::display::config::{config_path, load, load_from, save_to, Prefs, Raw};
use workstation::display::key::DisplayKey;
use workstation::display::names::{lookup, parse};
use workstation::display::resource::{MainDisplay, SeparateSpaces, Step};
use workstation::display::spaces::{
    read_args, separate_spaces_enabled, set_separate_spaces, spans, write_failed, written,
};
use workstation::resource::{Change, CommandOutput, Launch, ResourceState};

const MONITOR_1: DisplayKey = DisplayKey {
    vendor: 4268,
    model: 53466,
    serial: 911690818,
};

#[test]
fn id_is_scoped_to_the_panel() {
    let id = MainDisplay::new(MONITOR_1).id();
    assert_eq!(id.kind, "display::main");
    assert_eq!(id.name, "4268:53466:911690818");
}

#[test]
fn absent_state_asks_for_creation() {
    let resource = MainDisplay::new(MONITOR_1);
    assert!(matches!(resource.diff(&ResourceState::Absent), Change::Create));
}

#[test]
fn present_state_is_a_no_op() {
    let resource = MainDisplay::new(MONITOR_1);
    assert!(matches!(resource.diff(&ResourceState::present()), Change::NoOp));
}

#[test]
fn dry_run_changes_nothing() {
    let resource = MainDisplay::new(MONITOR_1);
    assert!(resource.apply(&Change::Create, true).is_empty());
}

#[test]
fn noop_change_does_not_touch_the_system() {
    let resource = MainDisplay::new(MONITOR_1);
    assert!(resource.apply(&Change::NoOp, false).is_empty());
}

#[test]
fn description_names_the_panel_the_way_the_docs_do() {
    let resource = MainDisplay::new(MONITOR_1);
    assert!(resource.description().contains("36574c42"));
}

#[test]
fn spaces_resource_is_a_singleton_id() {
    let id = SeparateSpaces.id();
    assert_eq!(id.kind, "display::spaces");
    assert_eq!(id.name, "separate");
}

#[test]
fn spanning_spaces_ask_for_correction() {
    assert!(matches!(SeparateSpaces.diff(&ResourceState::Absent), Change::Create));
}

#[test]
fn separate_spaces_are_left_alone() {
    assert!(matches!(SeparateSpaces.diff(&ResourceState::present()), Change::NoOp));
}

#[test]
fn spaces_dry_run_does_not_write_the_preference() {
    assert!(SeparateSpaces.apply(&Change::Create, true).is_empty());
    assert!(SeparateSpaces.apply(&Change::NoOp, false).is_empty());
    assert_eq!(SeparateSpaces.apply(&Change::Create, false), [Step::SeparateSpaces]);
}

#[test]
fn applying_saves_enforces_and_installs() {
    let resource = MainDisplay::new(MONITOR_1);
    let steps = resource.apply(&Change::Create, false);
    assert_eq!(steps, [Step::SavePrefs, Step::Enforce, Step::InstallAgent]);
    let pinned = resource.pinned(&Prefs::default());
    assert_eq!(pinned.preferred_main, Some(MONITOR_1));
    assert!(matches!(resource.detect(&pinned, true), ResourceState::Present { .. }));
    assert!(matches!(resource.detect(&pinned, false), ResourceState::Absent));
    assert!(matches!(resource.detect(&Prefs::default(), true), ResourceState::Absent));
    assert!(matches!(SeparateSpaces.detect(true), ResourceState::Present { .. }));
    assert!(matches!(SeparateSpaces.detect(false), ResourceState::Absent));
    assert!(!resource.parallelizable());
}

#[test]
fn missing_file_yields_empty_prefs() {
    assert_eq!(load_from("/t/display.json", &Raw::Missing, None).unwrap(), Prefs::default());
}

#[test]
fn round_trips_through_disk() {
    let prefs = Prefs {
        preferred_main: Some(MONITOR_1),
    };
    let raw = "{\"preferred_main\":\"4268:53466:911690818\"}";
    let written = save_to(raw);
    assert_eq!(written, format!("{raw}\n"));
    assert_eq!(load_from("/t/display.json", &Raw::Text(written), Some(prefs)).unwrap(), prefs);
}

#[test]
fn empty_file_yields_empty_prefs() {
    let raw = Raw::Text("   \n".to_string());
    assert_eq!(load_from("/t/display.json", &raw, None).unwrap(), Prefs::default());
}

#[test]
fn corrupt_file_is_an_error_rather_than_a_silent_reset() {
    let raw = Raw::Text("{ not json".to_string());
    assert_eq!(
        load_from("/t/display.json", &raw, None).unwrap_err(),
        "failed to parse /t/display.json"
    );
    let home = Some("/Users/me".to_string());
    assert_eq!(
        load(&home, &Raw::Unreadable, None).unwrap_err(),
        "failed to read /Users/me/.config/wsctl/display.json"
    );
}

#[test]
fn config_path_is_under_home() {
    let path = config_path(&Some("/Users/me".to_string()));
    assert!(path.ends_with(".config/wsctl/display.json"));
    assert_eq!(config_path(&None), "./.config/wsctl/display.json");
}

const SAMPLE: &str = r#"{
      "SPDisplaysDataType": [
        {
          "_name": "Apple M3 Pro",
          "spdisplays_ndrvs": [
            {
              "_name": "DELL P2419H",
              "_spdisplays_displayID": "2",
              "_spdisplays_display-serial-number": "36574c42"
            },
            {
              "_name": "DELL P2419H",
              "_spdisplays_displayID": "3",
              "_spdisplays_display-serial-number": "35434e42"
            }
          ]
        }
      ]
    }"#;

#[test]
fn reads_names_by_display_id() {
    let names = parse(SAMPLE);
    assert_eq!(names.get(&2).map(String::as_str), Some("DELL P2419H"));
    assert_eq!(names.get(&3).map(String::as_str), Some("DELL P2419H"));
    assert_eq!(names.len(), 2);
}

#[test]
fn malformed_json_yields_no_names() {
    assert!(parse("{ not json").is_empty());
    assert!(parse("").is_empty());
}

#[test]
fn missing_keys_are_skipped_rather_than_panicking() {
    let raw = r#"{"SPDisplaysDataType":[{"spdisplays_ndrvs":[{"_name":"No ID"},{"_spdisplays_displayID":"7"}]}]}"#;
    assert!(parse(raw).is_empty());
}

#[test]
fn unexpected_shape_yields_no_names() {
    assert!(parse(r#"{"SPDisplaysDataType": "not an array"}"#).is_empty());
    assert!(parse(r#"{"SomethingElse": []}"#).is_empty());
}

#[test]
fn without_a_report_there_are_no_names() {
    assert!(lookup(&None).is_empty());
    assert_eq!(lookup(&Some(SAMPLE.to_string())).len(), 2);
}

#[test]
fn recognises_every_spelling_of_a_set_key() {
    for raw in ["1", "true", "YES", " 1\n"] {
        assert!(spans(raw), "{raw:?} should read as spanning");
    }
}

#[test]
fn anything_else_means_separate_spaces() {
    for raw in ["0", "false", "NO", "", "\n"] {
        assert!(!spans(raw), "{raw:?} should not read as spanning");
    }
}

fn ran(stdout: &str, stderr: &str, success: bool) -> Launch {
    Launch::Ran(CommandOutput { stdout: stdout.into(), stderr: stderr.into(), success })
}

#[test]
fn nothing_is_said_of_spaces_where_defaults_does_not_run() {
    for launch in [Launch::NotInstalled, Launch::Failed("no fork".to_string())] {
        assert_eq!(separate_spaces_enabled(&launch).unwrap_err(), "failed to run `defaults read`");
        assert_eq!(written("d", true, &launch).unwrap_err(), "failed to run `defaults write`");
    }
    assert_eq!(written("d", false, &ran("", "", true)), Ok(()));
    assert_eq!(
        written("d", false, &ran("", " denied\n", false)).unwrap_err(),
        "`defaults write d spans-displays -bool true` failed: denied"
    );
}

#[test]
fn round_trips_through_defaults() {
    let domain = "com.priyanshujain.wsctl.spaces-test";
    for enabled in [true, false] {
        let args = set_separate_spaces(domain, enabled);
        assert_eq!(args[..4], ["write", domain, "spans-displays", "-bool"]);
        assert_eq!(separate_spaces_enabled(&ran(&args[4], "", true)), Ok(enabled));
    }
    assert_eq!(read_args(domain), ["read", domain, "spans-displays"]);
    // A domain that does not exist reads as the macOS default.
    let missing = ran("", "Domain com.example does not exist\n", false);
    assert_eq!(separate_spaces_enabled(&missing), Ok(true));
    assert!(write_failed(domain, true, " denied\n").contains("denied"));
}

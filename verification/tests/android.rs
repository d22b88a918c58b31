//! Phones on adb, what is typed on them and what mirrors them.
use workstation::android::adb;
use workstation::android::device::{parse_devices, resolve, transport_for, Device, State, Transport};
use workstation::android::input::{device_quote, type_text};
use workstation::android::scrcpy::{run, sessions_for, stop_sessions, Mode};
use workstation::resource::{CommandOutput, Launch};

/// Real output from the dock setup: phone on USB, same phone over wireless adb, emulator.
const DUAL_HOMED: &str = "\
List of devices attached
663c91b1               device usb:2-1.1.3.2.2 product:CPH2467 model:CPH2467 device:OP5958L1 transport_id:17
192.168.1.243:5555     device product:CPH2467 model:CPH2467 device:OP5958L1 transport_id:18
emulator-5554          device product:sdk_gphone64_arm64 model:sdk_gphone64_arm64 device:emu64a transport_id:7";

#[test]
fn parses_a_real_listing() {
    let devices = parse_devices(DUAL_HOMED);
    assert_eq!(devices.len(), 3);
    assert_eq!(devices[0].serial, "663c91b1");
    assert_eq!(devices[0].model.as_deref(), Some("CPH2467"));
    assert_eq!(devices[0].board.as_deref(), Some("OP5958L1"));
    assert!(devices.iter().all(Device::is_ready));
}

#[test]
fn classifies_transports_by_serial_shape() {
    let devices = parse_devices(DUAL_HOMED);
    assert_eq!(devices[0].transport, Transport::Usb);
    assert_eq!(devices[1].transport, Transport::Network);
    assert_eq!(devices[2].transport, Transport::Emulator);
}

#[test]
fn one_phone_on_two_transports_resolves_to_the_cable() {
    let devices = parse_devices(DUAL_HOMED);
    let picked = resolve(&devices, None).unwrap();
    assert_eq!(picked.serial, "663c91b1");
    assert_eq!(picked.transport, Transport::Usb);
}

#[test]
fn emulators_are_never_picked_implicitly() {
    let only_emulator = parse_devices("emulator-5554  device model:sdk_gphone64_arm64");
    let err = resolve(&only_emulator, None).unwrap_err().to_string();
    assert!(err.contains("no physical device"), "{err}");
    assert!(err.contains("--device"), "{err}");
}

#[test]
fn emulators_can_still_be_targeted_explicitly() {
    let devices = parse_devices(DUAL_HOMED);
    let picked = resolve(&devices, Some("emulator-5554")).unwrap();
    assert_eq!(picked.transport, Transport::Emulator);
}

#[test]
fn two_distinct_phones_need_disambiguation() {
    let devices = parse_devices(
        "663c91b1  device model:CPH2467 device:OP5958L1\n\
             9a8b7c6d  device model:Pixel_8 device:shiba",
    );
    let err = resolve(&devices, None).unwrap_err().to_string();
    assert!(err.contains("more than one device"), "{err}");
    assert!(
        err.contains("663c91b1") && err.contains("9a8b7c6d"),
        "{err}"
    );
}

#[test]
fn distinct_boards_are_not_collapsed_across_transports() {
    // Only a shared board name means one phone; two different devices must both survive.
    let devices = parse_devices(
        "663c91b1           device model:CPH2467 device:OP5958L1\n\
             192.168.1.99:5555  device model:Pixel_8 device:shiba",
    );
    assert!(resolve(&devices, None).is_err());
}

#[test]
fn unauthorized_devices_explain_themselves() {
    let devices = parse_devices("663c91b1  unauthorized");
    let err = resolve(&devices, None).unwrap_err().to_string();
    assert!(err.contains("unauthorized"), "{err}");
    assert!(err.contains("accept the prompt"), "{err}");
}

#[test]
fn offline_devices_are_not_silently_chosen() {
    let devices = parse_devices("663c91b1  offline model:CPH2467 device:OP5958L1");
    assert!(resolve(&devices, None).is_err());
    assert!(resolve(&devices, Some("663c91b1")).is_err());
}

#[test]
fn unknown_serial_lists_what_adb_saw() {
    let devices = parse_devices(DUAL_HOMED);
    let err = resolve(&devices, Some("nope")).unwrap_err().to_string();
    assert!(err.contains("663c91b1"), "{err}");
}

#[test]
fn daemon_chatter_is_ignored() {
    let devices = parse_devices(
        "* daemon not running; starting now at tcp:5037\n\
             * daemon started successfully\n\
             List of devices attached\n\
             663c91b1  device model:CPH2467 device:OP5958L1",
    );
    assert_eq!(devices.len(), 1);
}

#[test]
fn empty_listing_yields_nothing() {
    assert!(parse_devices("List of devices attached\n").is_empty());
    assert!(resolve(&[], None).is_err());
    assert!(resolve(&[], Some("663c91b1")).is_err());
}

#[test]
fn hostnames_and_ipv4_both_read_as_network() {
    assert_eq!(transport_for("192.168.1.243:5555"), Transport::Network);
    assert_eq!(transport_for("phone.local:5555"), Transport::Network);
    assert_eq!(transport_for("663c91b1"), Transport::Usb);
    // A trailing colon with no port is not a wireless serial.
    assert_eq!(transport_for("weird:"), Transport::Usb);
}

#[test]
fn wraps_plain_text() {
    assert_eq!(device_quote("hello"), "'hello'");
}

#[test]
fn keeps_spaces_in_one_argument() {
    // Unquoted, sh would split this and `input text` would only receive "hello".
    assert_eq!(device_quote("hello world"), "'hello world'");
}

#[test]
fn escapes_embedded_single_quotes() {
    assert_eq!(device_quote("it's"), r"'it'\''s'");
}

#[test]
fn neutralises_shell_metacharacters() {
    for raw in ["a;rm -rf b", "$(whoami)", "`id`", "a&&b", "a|b", "a>b"] {
        let quoted = device_quote(raw);
        assert!(
            quoted.starts_with('\'') && quoted.ends_with('\''),
            "{quoted}"
        );
        assert_eq!(&quoted[1..quoted.len() - 1], raw);
    }
}

#[test]
fn a_quote_injection_attempt_stays_inside_the_quotes() {
    // Naive quoting would let this break out and run `id` on the device.
    let quoted = device_quote("'; id; '");
    assert_eq!(quoted, r"''\''; id; '\'''");
}

#[test]
fn typical_pastes_survive_intact() {
    assert_eq!(device_quote("+91 98765 43210"), "'+91 98765 43210'");
    assert_eq!(
        device_quote("https://example.com/a?b=1&c=2"),
        "'https://example.com/a?b=1&c=2'"
    );
}

/// Real `ps -Ao pid=,args=` shape, captured live: the session, the adb child it spawns,
/// the shell that launched it, and unrelated noise.
const PS: &str = "\
  34435 scrcpy -s 663c91b1 --no-window --no-video --no-audio
  34446 adb -s 663c91b1 shell CLASSPATH=/data/local/tmp/scrcpy-server.jar app_process / com.genymobile.scrcpy.Server 4.0 scid=66773e6e
  34240 /bin/zsh -c cd /tmp && scrcpy -s 663c91b1 --no-window
  96986 /opt/homebrew/bin/scrcpy -s 192.168.1.243:5555
   1234 /usr/bin/ssh -s 663c91b1
    501 /sbin/launchd";

#[test]
fn clip_mode_runs_without_a_window() {
    let args = Mode::Clip.args("663c91b1");
    assert_eq!(
        args,
        ["-s", "663c91b1", "--no-window", "--no-video", "--no-audio"]
    );
}

#[test]
fn mirror_mode_keeps_the_screen() {
    let args = Mode::Mirror.args("663c91b1");
    assert_eq!(args, ["-s", "663c91b1"]);
    assert!(!args.iter().any(|a| a.starts_with("--no-")));
}

#[test]
fn finds_the_session_for_a_device() {
    assert_eq!(sessions_for(PS, "663c91b1"), vec![34435]);
}

#[test]
fn ignores_the_shell_that_launched_scrcpy() {
    // The wrapper carries the same text; killing it would leave the session running.
    assert!(!sessions_for(PS, "663c91b1").contains(&34240));
}

#[test]
fn matches_an_absolute_scrcpy_path() {
    assert_eq!(sessions_for(PS, "192.168.1.243:5555"), vec![96986]);
}

#[test]
fn ignores_the_adb_child_scrcpy_spawns() {
    // scrcpy's own adb helper carries the same `-s <serial>`. Killing it would tear down
    // the session's transport while leaving scrcpy itself running.
    assert!(!sessions_for(PS, "663c91b1").contains(&34446));
}

#[test]
fn ignores_other_binaries_that_take_dash_s() {
    // ssh -s would otherwise look like a match on the serial alone.
    assert!(!sessions_for(PS, "663c91b1").contains(&1234));
}

#[test]
fn ignores_sessions_for_other_devices() {
    assert!(sessions_for(PS, "emulator-5554").is_empty());
}

#[test]
fn handles_the_long_serial_flag() {
    let ps = "  42 scrcpy --serial 663c91b1\n  43 scrcpy --serial=663c91b1";
    assert_eq!(sessions_for(ps, "663c91b1"), vec![42, 43]);
}

#[test]
fn survives_empty_and_malformed_input() {
    assert!(sessions_for("", "663c91b1").is_empty());
    assert!(sessions_for("garbage\n\n  \n", "663c91b1").is_empty());
}

#[test]
fn does_not_match_a_serial_that_is_only_a_prefix() {
    let ps = "  42 scrcpy -s 663c91b1aa";
    assert!(sessions_for(ps, "663c91b1").is_empty());
}

fn ran(stdout: &str, stderr: &str, success: bool) -> Launch {
    Launch::Ran(CommandOutput {
        stdout: stdout.to_string(),
        stderr: stderr.to_string(),
        success,
    })
}

#[test]
fn the_listing_is_read_when_adb_succeeds() {
    let devices = adb::devices(&ran(DUAL_HOMED, "", true)).unwrap();
    assert_eq!(devices.len(), 3);
    assert_eq!(adb::target(&ran(DUAL_HOMED, "", true), None).unwrap().serial, "663c91b1");
}

#[test]
fn a_failing_adb_is_an_error() {
    assert_eq!(
        adb::devices(&Launch::NotInstalled).unwrap_err(),
        "adb is not installed, run `brew install android-platform-tools`"
    );
    assert_eq!(adb::devices(&Launch::Failed("denied".to_string())).unwrap_err(), "failed to run adb: denied");
    assert_eq!(
        adb::devices(&ran("", " cannot bind\n", false)).unwrap_err(),
        "adb devices failed: cannot bind"
    );
    assert!(adb::target(&Launch::NotInstalled, None).is_err());
    assert!(adb::typed(&ran("", "", true)).is_ok());
    assert_eq!(
        adb::typed(&ran("", "no such device", false)).unwrap_err(),
        "adb input failed, is a text field focused on the device?"
    );
    assert!(adb::typed(&Launch::NotInstalled).is_err());
}

#[test]
fn labels_and_states_read_as_text() {
    let devices = parse_devices("663c91b1  recovery model:CPH2467\nemulator-5554 device");
    assert_eq!(devices[0].state.to_text(), "recovery");
    assert!(!devices[0].is_ready());
    assert!(devices[1].is_emulator());
    assert_eq!(Transport::Usb.to_text(), "usb");
    assert_eq!(State::Offline.to_text(), "offline");
    let copy: Device = devices[0].copied();
    assert_eq!(copy.label(), "663c91b1  CPH2467  [usb, recovery]");
    assert_eq!(devices[1].label(), "emulator-5554  unknown  [emulator, ready]");
}

#[test]
fn text_is_typed_as_one_quoted_argument() {
    let args = type_text("663c91b1", "it's").unwrap();
    assert_eq!(args, ["-s", "663c91b1", "shell", "input", "text", r"'it'\''s'"]);
    assert_eq!(
        type_text("663c91b1", "").unwrap_err(),
        "nothing to type, the clipboard is empty"
    );
    assert!(type_text("663c91b1", "caf\u{e9}").unwrap_err().contains("only handles ASCII"));
}

#[test]
fn a_session_that_ends_badly_is_an_error() {
    assert!(run(Some(0)).is_ok());
    assert!(run(None).is_ok());
    assert_eq!(run(Some(-1)).unwrap_err(), "scrcpy exited with status -1");
}

#[test]
fn stopping_names_every_session_of_the_device() {
    let (pids, count) = stop_sessions(PS, "663c91b1");
    assert_eq!(pids, vec![34435]);
    assert_eq!(count, 1);
}

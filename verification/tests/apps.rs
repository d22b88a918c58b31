//! Applications: their bundles, what they leave behind and how it is removed.
use workstation::apps::brew::{match_cask, slug};
use workstation::apps::bundle::{find, find_in, search_dirs, AppBundle};
use workstation::apps::leftovers::{
    concerns, matches_id, scan, scan_in, Confidence, Entry, Folder, Kind, Leftover, Locations, Measure,
};
use workstation::apps::plist::{program_paths, read, string_at};
use workstation::apps::removal::{
    access_probe, action_for, bootouts, command_outcome, escalate, execute, has_full_disk_access,
    is_running, is_tcc_denial, parse_pids, remove_path, requires_root, running_pids, to_trash, Action,
    Facts, Mode, Quit, QuitStep, Report, QUIT_POLLS,
};
use workstation::resource::CommandOutput;

fn casks(v: &[&str]) -> Vec<String> {
    v.iter().map(|s| s.to_string()).collect()
}

#[test]
fn slug_lowercases_and_joins_words_with_dashes() {
    assert_eq!(slug("Cloudflare WARP"), "cloudflare-warp");
    assert_eq!(slug("Slack"), "slack");
    assert_eq!(slug("Visual Studio Code"), "visual-studio-code");
}

#[test]
fn slug_collapses_punctuation_and_runs_of_spaces() {
    assert_eq!(slug("IINA+  (beta)"), "iina-beta");
    assert_eq!(slug("  Foo   Bar  "), "foo-bar");
    assert_eq!(slug("!!!"), "");
}

#[test]
fn match_cask_finds_the_installed_token() {
    let installed = casks(&["cloudflare-warp", "slack", "ghostty"]);
    assert_eq!(
        match_cask("Cloudflare WARP", &installed).as_deref(),
        Some("cloudflare-warp")
    );
    assert_eq!(match_cask("Slack", &installed).as_deref(), Some("slack"));
}

#[test]
fn match_cask_is_none_for_apps_brew_does_not_manage() {
    let installed = casks(&["slack"]);
    assert_eq!(match_cask("Xcode", &installed), None);
    assert_eq!(match_cask("!!!", &installed), None);
    assert_eq!(match_cask("Slack", &[]), None);
}

/// What `plutil` prints for the Info.plist of a bundle with this identifier.
fn info(id: Option<&str>) -> Option<Vec<u8>> {
    let printed = match id {
        Some(id) => format!("{{\"CFBundleIdentifier\": \"{id}\"}}"),
        None => "{}".to_string(),
    };
    Some(printed.into_bytes())
}

fn app_named(name: &str, id: Option<&str>) -> AppBundle {
    AppBundle::read(&format!("/Applications/{name}.app"), &info(id))
}

fn installed() -> Vec<Option<Vec<String>>> {
    vec![Some(vec![
        "/Applications/Cloudflare WARP.app".to_string(),
        "/Applications/Slack.app".to_string(),
        "/Applications/Slack Dev.app".to_string(),
    ])]
}

#[test]
fn read_extracts_name_and_bundle_id() {
    let bundle = app_named("Cloudflare WARP", Some("com.cloudflare.warp.macos"));
    assert_eq!(bundle.name, "Cloudflare WARP");
    assert_eq!(
        bundle.bundle_id.as_deref(),
        Some("com.cloudflare.warp.macos")
    );
}

#[test]
fn read_tolerates_missing_bundle_id() {
    assert_eq!(app_named("Broken", None).bundle_id, None);
    assert_eq!(AppBundle::read("/Applications/Broken.app", &None).bundle_id, None);
}

#[test]
fn vendor_is_the_second_component() {
    let app = app_named("A", Some("com.cloudflare.warp.macos"));
    assert_eq!(app.vendor().as_deref(), Some("cloudflare"));
}

#[test]
fn vendor_prefix_is_the_first_two_components() {
    let app = app_named("A", Some("com.docker.docker"));
    assert_eq!(app.vendor_prefix().as_deref(), Some("com.docker"));
}

#[test]
fn vendor_prefix_needs_at_least_three_components() {
    let app = app_named("B", Some("com.slack"));
    assert_eq!(app.vendor_prefix(), None);
    let none = app_named("C", None);
    assert_eq!(none.vendor_prefix(), None);
}

#[test]
fn vendor_rejects_short_or_shallow_ids() {
    assert_eq!(app_named("B", Some("com.slack")).vendor(), None);
    assert_eq!(app_named("C", Some("com.hi.app")).vendor(), None);
    assert_eq!(app_named("D", None).vendor(), None);
}

#[test]
fn find_in_prefers_exact_over_substring() {
    let hits = find_in(&installed(), "Slack");
    assert_eq!(hits.len(), 1, "exact match should not drag in 'Slack Dev'");
    assert!(hits[0].ends_with("Slack.app"));
}

#[test]
fn find_in_is_case_insensitive_and_ignores_dot_app() {
    assert_eq!(find_in(&installed(), "sLaCk.app").len(), 1);
}

#[test]
fn find_in_returns_every_substring_match() {
    let hits = find_in(&installed(), "slac");
    assert_eq!(hits.len(), 2, "both Slack apps should be offered");
}

#[test]
fn find_in_skips_non_app_entries_and_missing_dirs() {
    let dirs = vec![
        Some(vec!["/Applications/Slack".to_string(), "/Applications/Slack.txt".to_string()]),
        None,
    ];
    assert!(find_in(&dirs, "Slack").is_empty());
}

#[test]
fn search_dirs_excludes_system_applications() {
    let dirs = search_dirs(&Some("/Users/me".to_string()));
    assert!(!dirs.iter().any(|d| d.starts_with("/System")));
    assert!(dirs.contains(&"/Applications".to_string()));
    assert!(dirs.contains(&"/Users/me/Applications".to_string()));
}

#[test]
fn find_rejects_an_absolute_path_that_does_not_exist() {
    let err = find("/Applications/Definitely Not Here.app", false, &Vec::new()).unwrap_err();
    assert!(format!("{err}").contains("no bundle at"));
}

#[test]
fn find_takes_the_one_match_and_explains_the_rest() {
    assert_eq!(find("warp", false, &installed()).unwrap(), "/Applications/Cloudflare WARP.app");
    assert_eq!(find("/x/Y.app", true, &installed()).unwrap(), "/x/Y.app");
    assert!(find("nothing", false, &installed()).unwrap_err().contains("no application matching"));
    let many = find("slac", false, &installed()).unwrap_err();
    assert_eq!(many, "'slac' matches 2 apps: Slack Dev, Slack");
}

#[test]
fn string_at_reads_a_key() {
    let printed = Some(b"{\"CFBundleIdentifier\": \"com.example.thing\"}".to_vec());
    assert_eq!(
        string_at(&printed, "CFBundleIdentifier").as_deref(),
        Some("com.example.thing")
    );
}

#[test]
fn string_at_is_none_for_missing_key_or_file() {
    let printed = Some(b"{\"Other\": \"x\"}".to_vec());
    assert_eq!(string_at(&printed, "CFBundleIdentifier"), None);
    assert_eq!(string_at(&None, "Any"), None);
    assert_eq!(string_at(&Some(b"no json".to_vec()), "Any"), None);
}

#[test]
fn string_at_ignores_empty_values() {
    assert_eq!(string_at(&Some(b"{\"K\": \"  \"}".to_vec()), "K"), None);
    assert_eq!(string_at(&Some(b"{\"K\": 7}".to_vec()), "K"), None);
}

#[test]
fn program_paths_merges_program_and_arguments() {
    let printed =
        b"{\"Program\": \"/usr/bin/foo\", \"ProgramArguments\": [\"/usr/bin/foo\", \"--run\"]}".to_vec();
    let value = read(&Some(printed)).unwrap();
    assert_eq!(
        program_paths(&value),
        vec!["/usr/bin/foo", "/usr/bin/foo", "--run"]
    );
}

#[test]
fn program_paths_empty_when_absent() {
    let value = read(&Some(b"{\"Label\": \"x\"}".to_vec())).unwrap();
    assert!(program_paths(&value).is_empty());
}

struct Fixture {
    app: AppBundle,
    at: Locations,
    disk: Vec<Folder>,
    bundle: Option<Measure>,
}

fn entry(name: &str) -> Entry {
    Entry { name: name.to_string(), size: 1, link: None, plist: None }
}

fn job(name: &str, label: &str, program: &str) -> Entry {
    let printed = format!("{{\"Label\": \"{label}\", \"ProgramArguments\": [\"{program}\"]}}");
    Entry { plist: read(&Some(printed.into_bytes())), ..entry(name) }
}

fn link(name: &str, target: &str) -> Entry {
    Entry { link: Some(target.to_string()), ..entry(name) }
}

fn folder(path: &str, entries: Vec<Entry>) -> Folder {
    Folder { path: path.to_string(), writable: true, entries }
}

fn fixture() -> Fixture {
    let bundle = "/T/Applications/Cloudflare WARP.app";
    let disk = vec![
        folder(
            "/T/Library/Application Support",
            vec![entry(ID), entry("Cloudflare"), entry("com.other.app")],
        ),
        folder(
            "/T/Library/Caches",
            vec![entry(&format!("{ID}.helper")), entry("com.cloudflare.warp.macosx")],
        ),
        folder("/T/Library/Preferences", vec![entry(&format!("{ID}.plist")), entry("ByHost")]),
        folder("/T/Library/Preferences/ByHost", vec![entry(&format!("{ID}.4C2F.plist"))]),
        folder("/T/Library/Containers", vec![entry(&format!("ABCDE12345.{ID}"))]),
        folder("/T/Library/Group Containers", vec![entry(&format!("group.{ID}"))]),
        folder("/T/Library/HTTPStorages", vec![entry(&format!("{ID}.binarycookies"))]),
        folder(
            "/T/Library/LaunchDaemons",
            vec![
                job(
                    &format!("{ID}.daemon.plist"),
                    "com.cloudflare.warp.macos.daemon",
                    "/usr/bin/true",
                ),
                job(
                    "com.unrelated.updater.plist",
                    "com.unrelated.updater",
                    &format!("{bundle}/Contents/Resources/updater"),
                ),
                // A helper the vendor ships beside the app: shares the namespace but
                // is not derived from the bundle id, and is not inside the bundle.
                job(
                    "com.cloudflare.vmnetd.plist",
                    "com.cloudflare.vmnetd",
                    "/Library/PrivilegedHelperTools/com.cloudflare.vmnetd",
                ),
            ],
        ),
        folder(
            "/T/Library/LaunchAgents",
            vec![job("com.someone.else.plist", "com.someone.else", "/usr/bin/true")],
        ),
        folder("/T/Library/PrivilegedHelperTools", vec![entry("com.cloudflare.vmnetd")]),
        folder(
            "/T/bin",
            vec![
                link("warp-cli", &format!("{bundle}/Contents/Resources/warp-cli")),
                link("unrelated", "/usr/bin/true"),
            ],
        ),
    ];
    Fixture {
        app: AppBundle {
            path: bundle.into(),
            name: "Cloudflare WARP".into(),
            bundle_id: Some(ID.into()),
        },
        at: Locations {
            libraries: vec!["/T/Library".into()],
            bin_dirs: vec!["/T/bin".into()],
            uid: 501,
        },
        disk,
        bundle: Some(Measure { size: 10, needs_root: false }),
    }
}

const ID: &str = "com.cloudflare.warp.macos";

#[test]
fn matches_id_accepts_the_id_itself_and_derived_names() {
    assert!(matches_id(ID, ID));
    assert!(matches_id("com.cloudflare.warp.macos.plist", ID));
    assert!(matches_id("com.cloudflare.warp.macos.daemon", ID));
    assert!(matches_id("com.cloudflare.warp.macos.binarycookies", ID));
    assert!(matches_id("com.cloudflare.warp.macos.savedState", ID));
    assert!(matches_id("com.cloudflare.warp.macos.4C2F.plist", ID));
}

#[test]
fn matches_id_rejects_a_longer_neighbouring_id() {
    assert!(!matches_id("com.cloudflare.warp.macosx", ID));
    assert!(!matches_id("com.cloudflare.warp.macosx.plist", ID));
    assert!(!matches_id("com.cloudflare.warp", ID));
    assert!(!matches_id("com.other.app", ID));
}

#[test]
fn matches_id_peels_group_and_team_prefixes() {
    assert!(matches_id("group.com.cloudflare.warp.macos", ID));
    assert!(matches_id("ABCDE12345.com.cloudflare.warp.macos", ID));
    assert!(matches_id("ABCDE12345.group.com.cloudflare.warp.macos", ID));
    assert!(!matches_id("notateam.com.cloudflare.warp.macos", ID));
}

fn paths(found: &[Leftover], confidence: Confidence) -> Vec<String> {
    found
        .iter()
        .filter(|l| l.confidence == confidence)
        .map(|l| l.display())
        .collect()
}

fn has(found: &[Leftover], needle: &str) -> bool {
    found.iter().any(|l| l.display().contains(needle))
}

#[test]
fn scan_finds_bundle_id_named_data_everywhere() {
    let f = fixture();
    let found = scan_in(&f.app, &f.at, &f.disk, f.bundle, None);
    let exact = paths(&found, Confidence::Exact);
    for expected in [
        "Cloudflare WARP.app",
        &format!("Application Support/{ID}"),
        &format!("Caches/{ID}.helper"),
        &format!("Preferences/{ID}.plist"),
        &format!("ByHost/{ID}.4C2F.plist"),
        &format!("Containers/ABCDE12345.{ID}"),
        &format!("Group Containers/group.{ID}"),
        &format!("HTTPStorages/{ID}.binarycookies"),
    ] {
        assert!(
            exact.iter().any(|p| p.contains(expected)),
            "missing {expected} in {exact:#?}"
        );
    }
}

#[test]
fn scan_leaves_other_vendors_data_alone() {
    let f = fixture();
    let found = scan_in(&f.app, &f.at, &f.disk, f.bundle, None);
    assert!(!has(&found, "com.other.app"));
    assert!(!has(&found, "bin/unrelated"));
    assert!(!has(&found, "com.someone.else"));
}

#[test]
fn scan_never_marks_a_neighbouring_id_as_exact() {
    let f = fixture();
    let found = scan_in(&f.app, &f.at, &f.disk, f.bundle, None);
    let neighbour = found
        .iter()
        .find(|l| l.display().contains("com.cloudflare.warp.macosx"))
        .expect("same-namespace data should still be surfaced");
    assert_eq!(
        neighbour.confidence,
        Confidence::Likely,
        "a longer neighbouring id is never this app's data"
    );
}

#[test]
fn scan_classifies_vendor_folders_as_likely() {
    let f = fixture();
    let found = scan_in(&f.app, &f.at, &f.disk, f.bundle, None);
    let vendor = found
        .iter()
        .find(|l| l.display().ends_with("Application Support/Cloudflare"))
        .expect("vendor folder should be found");
    assert_eq!(vendor.confidence, Confidence::Likely);
    assert!(vendor.reason.contains("vendor"), "got: {}", vendor.reason);
}

#[test]
fn scan_surfaces_vendor_helpers_as_likely_not_exact() {
    let f = fixture();
    let found = scan_in(&f.app, &f.at, &f.disk, f.bundle, None);

    let daemon = found
        .iter()
        .find(|l| matches!(&l.kind, Kind::LaunchdJob { label, .. } if label == "com.cloudflare.vmnetd"))
        .expect("a helper daemon in the vendor namespace should be found");
    assert_eq!(
        daemon.confidence,
        Confidence::Likely,
        "a sibling of the bundle id is never assumed to be this app's"
    );

    let helper = found
        .iter()
        .find(|l| {
            l.display()
                .contains("PrivilegedHelperTools/com.cloudflare.vmnetd")
        })
        .expect("its privileged helper binary should be found too");
    assert_eq!(helper.confidence, Confidence::Likely);
}

#[test]
fn exact_matches_are_not_downgraded_by_the_namespace_pass() {
    let f = fixture();
    let found = scan_in(&f.app, &f.at, &f.disk, f.bundle, None);
    let support = found
        .iter()
        .filter(|l| l.display().ends_with(&format!("Application Support/{ID}")))
        .collect::<Vec<_>>();
    assert_eq!(support.len(), 1, "listed once, not once per pass");
    assert_eq!(support[0].confidence, Confidence::Exact);
}

#[test]
fn scan_finds_launchd_jobs_by_id_and_by_program_path() {
    let f = fixture();
    let found = scan_in(&f.app, &f.at, &f.disk, f.bundle, None);
    let jobs: Vec<_> = found
        .iter()
        .filter(|l| l.confidence == Confidence::Exact)
        .filter_map(|l| match &l.kind {
            Kind::LaunchdJob { label, domain, .. } => Some((label.clone(), domain.clone())),
            _ => None,
        })
        .collect();
    assert_eq!(jobs.len(), 2, "got {jobs:#?}");
    assert!(jobs.contains(&("com.cloudflare.warp.macos.daemon".into(), "system".into())));
    assert!(
        jobs.contains(&("com.unrelated.updater".into(), "system".into())),
        "a job whose binary lives in the bundle counts, whatever it is called"
    );
}

#[test]
fn scan_finds_symlinks_pointing_into_the_bundle() {
    let f = fixture();
    let found = scan_in(&f.app, &f.at, &f.disk, f.bundle, None);
    assert!(has(&found, "bin/warp-cli"));
    assert!(!has(&found, "bin/unrelated"));
}

#[test]
fn a_neighbour_of_the_bundle_is_not_the_bundle() {
    let app = AppBundle::read("/A/Foo.app", &info(None));
    let at = Locations {
        libraries: vec!["/L".to_string()],
        bin_dirs: vec!["/b".to_string()],
        uid: 501,
    };
    let disk = vec![
        folder(
            "/L/LaunchAgents",
            vec![
                job("inside.plist", "inside", "/A/Foo.app/Contents/MacOS/foo"),
                job("outside.plist", "outside", "/A/Foo.app.old/Contents/MacOS/foo"),
            ],
        ),
        folder(
            "/b",
            vec![
                link("inside", "/A/Foo.app/Contents/MacOS/foo"),
                link("bundle", "/A/Foo.app"),
                link("outside", "/A/Foo.app.old/x"),
            ],
        ),
    ];
    let found = scan_in(&app, &at, &disk, None, None);
    assert!(has(&found, "b/inside") && has(&found, "b/bundle"));
    assert!(!has(&found, "b/outside"), "a link past the bundle was listed");
    let jobs: Vec<String> = found
        .iter()
        .filter_map(|l| match &l.kind {
            Kind::LaunchdJob { label, .. } => Some(label.clone()),
            _ => None,
        })
        .collect();
    assert_eq!(jobs, ["inside"]);
}

#[test]
fn scan_sorts_exact_before_likely() {
    let f = fixture();
    let found = scan_in(&f.app, &f.at, &f.disk, f.bundle, None);
    let first_likely = found
        .iter()
        .position(|l| l.confidence == Confidence::Likely)
        .unwrap();
    assert!(
        found[first_likely..]
            .iter()
            .all(|l| l.confidence == Confidence::Likely)
    );
}

#[test]
fn scan_without_a_bundle_id_still_finds_bundle_and_symlinks() {
    let mut f = fixture();
    f.app.bundle_id = None;
    let found = scan_in(&f.app, &f.at, &f.disk, f.bundle, None);
    assert!(has(&found, "Cloudflare WARP.app"));
    assert!(has(&found, "bin/warp-cli"));
    assert!(!has(&found, "Application Support/com.cloudflare"));
}

#[test]
fn scan_skips_a_bundle_that_is_already_deleted() {
    let mut f = fixture();
    f.bundle = None;
    let found = scan_in(&f.app, &f.at, &f.disk, f.bundle, None);
    assert!(!has(&found, "Cloudflare WARP.app"));
    assert!(has(&found, &format!("Application Support/{ID}")));
}

#[test]
fn tempdir_items_do_not_need_root() {
    let f = fixture();
    let found = scan_in(&f.app, &f.at, &f.disk, f.bundle, None);
    assert!(
        found
            .iter()
            .filter(|l| !matches!(l.kind, Kind::Receipt(_)))
            .all(|l| !l.needs_root)
    );
}

#[test]
fn receipts_are_found_where_pkgutil_lists_them() {
    let f = fixture();
    let found = scan_in(&f.app, &f.at, &f.disk, f.bundle, Some("com.cloudflare.warp.macos.pkg\ncom.other.pkg\n"));
    let receipts: Vec<&Leftover> = found
        .iter()
        .filter(|l| matches!(l.kind, Kind::Receipt(_)))
        .collect();
    assert_eq!(receipts.len(), 1);
    assert!(receipts[0].needs_root);
}

#[test]
fn the_real_places_are_the_users_and_the_machines() {
    let at = Locations::real_places(&Some("/Users/me".to_string()), 501);
    assert!(at.libraries.contains(&"/Library".to_string()));
    assert!(at.libraries.contains(&"/Users/me/Library".to_string()));
    let folders = at.folders();
    assert!(folders.contains(&"/Users/me/Library/Caches".to_string()));
    assert!(folders.contains(&"/Library/LaunchDaemons".to_string()));
    let f = fixture();
    let found = scan(&f.app, &Some("/Users/me".to_string()), 501, &Vec::new(), f.bundle, None);
    assert_eq!(found.len(), 1, "only the bundle is there");
    assert!(concerns(&f.app, ID));
}

fn item(path: &str, size: u64) -> Leftover {
    Leftover {
        kind: Kind::Path(path.to_string()),
        reason: "test".into(),
        size,
        confidence: Confidence::Exact,
        needs_root: false,
    }
}

fn went() -> Facts {
    Facts { gone: false, outcome: Ok(()), gone_after: true, retry: Ok(()) }
}

#[test]
fn removing_a_missing_path_is_not_an_error() {
    let gone = item("/t/gone", 5);
    assert_eq!(action_for(&gone, true, Mode::Purge), Action::Skip);
    assert!(remove_path(&gone, Action::Skip).is_none());
    let report = execute(&[gone], &vec![Facts { gone: true, ..went() }], Mode::Purge, true);
    assert!(report.failed.is_empty());
}

#[test]
fn execute_trashes_a_whole_batch_in_one_go() {
    let items: Vec<Leftover> = (0..4).map(|i| item(&format!("/t/{i}"), 10)).collect();
    let facts: Vec<Facts> = (0..4).map(|_| went()).collect();
    assert_eq!(to_trash(&items, &facts, Mode::Trash).len(), 4);
    let report = execute(&items, &facts, Mode::Trash, true);
    assert!(report.failed.is_empty(), "failed: {:?}", report.failed);
    assert_eq!(report.removed.len(), 4);
}

#[test]
fn execute_totals_freed_bytes_and_lists_what_went() {
    let items = [item("/t/a", 100), item("/t/b", 40)];
    let report = execute(&items, &vec![went(), went()], Mode::Purge, true);
    assert_eq!(report.freed, 140);
    assert_eq!(report.removed.len(), 2);
    assert!(report.failed.is_empty());
}

#[test]
fn execute_records_failures_without_stopping() {
    let bad = "/System/Library/CoreServices/SystemVersion.plist";
    let items = [item(bad, 10), item("/t/good", 10)];
    let refused = Facts {
        outcome: Err("Operation not permitted".to_string()),
        gone_after: false,
        ..went()
    };
    let report = execute(&items, &vec![refused, went()], Mode::Purge, true);
    assert_eq!(report.removed.len(), 1);
    assert_eq!(report.failed.len(), 1, "SIP should refuse the first");
    assert!(report.failed[0].0.contains(bad));
    assert_eq!(report.freed, 10);
}

#[test]
fn requires_root_reports_any_privileged_item() {
    let mut privileged = item("/t/x", 0);
    privileged.needs_root = true;
    assert!(!requires_root(&[item("/t/x", 0)]));
    assert!(requires_root(&[item("/t/x", 0), privileged]));
}

#[test]
fn a_root_owned_item_never_goes_to_the_trash() {
    let mut owned = item("/Library/x", 3);
    owned.needs_root = true;
    assert_eq!(action_for(&owned, false, Mode::Trash), Action::Sudo);
    assert_eq!(
        remove_path(&owned, Action::Sudo).unwrap(),
        ["sudo", "rm", "-rf", "/Library/x"]
    );
    assert_eq!(
        remove_path(&item("/t/x", 3), Action::Unlink).unwrap(),
        ["rm", "-rf", "/t/x"]
    );
    let receipt = Leftover { kind: Kind::Receipt("com.a.pkg".into()), ..item("", 0) };
    assert_eq!(
        remove_path(&receipt, Action::Forget).unwrap(),
        ["sudo", "pkgutil", "--forget", "com.a.pkg"]
    );
}

#[test]
fn loaded_jobs_are_booted_out_first() {
    let daemon = Leftover {
        kind: Kind::LaunchdJob {
            label: "com.a.d".into(),
            plist: "/Library/LaunchDaemons/com.a.d.plist".into(),
            domain: "system".into(),
        },
        ..item("", 0)
    };
    let commands = bootouts(&[item("/t/x", 0), daemon]);
    assert_eq!(commands.len(), 1);
    assert!(commands[0].iter().any(|a| a.contains("system/com.a.d")), "{commands:?}");
}

#[test]
fn a_failed_command_says_why() {
    let out = |stderr: &str, success| CommandOutput {
        stdout: String::new(),
        stderr: stderr.to_string(),
        success,
    };
    assert!(command_outcome("rm", &Ok(out("", true))).is_ok());
    assert!(command_outcome("rm", &Ok(out("no such file", false))).unwrap_err().contains("no such file"));
    assert!(command_outcome("rm", &Err("no".to_string())).is_err());
    assert!(escalate(&Ok(true)).is_ok());
    assert!(escalate(&Ok(false)).is_err());
    assert!(escalate(&Err("no sudo".to_string())).is_err());
}

#[test]
fn full_disk_access_is_told_by_listing_one_directory() {
    let home = Some("/Users/me".to_string());
    assert!(access_probe(&home).unwrap().starts_with("/Users/me/"));
    assert!(access_probe(&None).is_none());
    assert!(has_full_disk_access(&home, true));
    assert!(!has_full_disk_access(&home, false));
}

#[test]
fn an_empty_report_holds_nothing() {
    let report = Report::default();
    assert!(report.removed.is_empty() && report.failed.is_empty() && report.freed == 0);
}

#[test]
fn tcc_denials_are_told_apart_from_ordinary_failures() {
    assert!(is_tcc_denial("rm: /x: Operation not permitted"));
    assert!(is_tcc_denial(
        "\u{201c}x\u{201d} couldn\u{2019}t be moved to the trash because you don\u{2019}t have permission to access it."
    ));
    assert!(!is_tcc_denial("No such file or directory"));
    assert!(!is_tcc_denial("Permission denied"));
}

const PS: &str = "\
  3637 /Applications/Ghostty.app/Contents/MacOS/ghostty
 64229 /Applications/Slack.app/Contents/MacOS/Slack
 64241 /Applications/Slack.app/Contents/Frameworks/Slack Helper.app/Contents/MacOS/Slack Helper
   901 /usr/libexec/secinitd
 55010 /Applications/Slackware.app/Contents/MacOS/Slackware
 62852 sh -c sleep 120 # /Applications/Slack.app/Contents/MacOS/Slack
";

#[test]
fn parse_pids_finds_every_process_inside_the_bundle() {
    let pids = parse_pids(PS, "/Applications/Slack.app");
    assert_eq!(
        pids,
        vec![64229, 64241],
        "the main process and its helper, including a path with spaces"
    );
}

#[test]
fn parse_pids_ignores_a_similarly_named_bundle() {
    let pids = parse_pids(PS, "/Applications/Slack.app");
    assert!(!pids.contains(&55010), "Slackware.app is a different app");
}

#[test]
fn parse_pids_ignores_processes_that_merely_mention_the_bundle() {
    let pids = parse_pids(PS, "/Applications/Slack.app");
    assert!(
        !pids.contains(&62852),
        "a shell whose arguments name the app is not the app"
    );
}

#[test]
fn parse_pids_survives_junk_lines() {
    assert!(parse_pids("", "/Applications/X.app").is_empty());
    assert!(parse_pids("garbage\n\n   \n", "/Applications/X.app").is_empty());
    assert!(
        parse_pids(
            "notanumber /Applications/X.app/Contents/MacOS/X",
            "/Applications/X.app"
        )
        .is_empty()
    );
}

#[test]
fn is_running_is_false_for_a_bundle_nobody_is_running() {
    let app = AppBundle {
        path: "/Applications/Definitely Not Running 9f3a.app".to_string(),
        name: "x".into(),
        bundle_id: None,
    };
    let ps = Some(PS.to_string());
    assert!(!is_running(&app, &ps));
    assert!(matches!(Quit::start().quit(&app, &ps), QuitStep::Done(false)));
}

#[test]
fn quitting_asks_waits_and_then_kills() {
    let app = AppBundle {
        path: "/Applications/Slack.app".to_string(),
        name: "Slack".into(),
        bundle_id: Some("com.tinyspeck.slackmacgap".into()),
    };
    let ps = Some(PS.to_string());
    assert_eq!(running_pids(&app, &ps), vec![64229, 64241]);
    let mut quit = Quit::start();
    match quit.quit(&app, &ps) {
        QuitStep::Ask(script) => assert_eq!(
            script.as_deref(),
            Some("tell application id \"com.tinyspeck.slackmacgap\" to quit")
        ),
        other => panic!("{other:?}"),
    }
    for _ in 0..QUIT_POLLS {
        assert!(matches!(quit.quit(&app, &ps), QuitStep::Wait));
    }
    match quit.quit(&app, &ps) {
        QuitStep::Kill(pids) => assert_eq!(pids, vec![64229, 64241]),
        other => panic!("{other:?}"),
    }
    assert!(matches!(quit.quit(&app, &ps), QuitStep::Done(true)));
}

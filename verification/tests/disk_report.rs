//! What the disk holds in figures, what is in use and what was reported before.
use workstation::disk::audit::{Audit, Category, CategoryPath};
use workstation::disk::liveness::{parse_ps_line, process_argv, process_cwds, Busy, Liveness};
use workstation::disk::overview::{df_path, disk_overview, plist_u64, statfs, DiskOverview};
use workstation::disk::projects::{
    classify, default_roots, discover, newest_source_mtime, prunes, Artifact, Project, ProjectKind,
    TreeEntry, TreeKind,
};
use workstation::disk::report::{
    cache_path, generate, humanize_age, load, load_or_refresh, ArtifactSnap, CategorySnap, PathSnap,
    ProjectSnap, Report, Source, MAX_AGE, SCHEMA,
};
use workstation::disk::scan::{scan_dir, FileKind, ScanEntry};
use workstation::disk::util::{dir_size, format_size, idle_days, newest_mtime, Moment, Span};

const NOW: u64 = 1_755_300_000;

fn now() -> Moment {
    Moment::from_secs(NOW)
}

#[test]
fn ps_line_name_comes_from_argv0_not_a_truncated_column() {
    let line =
        "91483 /Users/pj/Workspace/projects/rust/workstation/target/debug/wsctl disk projects";
    let (pid, name, args) = parse_ps_line(line).unwrap();
    assert_eq!(pid, 91483);
    assert_eq!(name, "wsctl");
    assert!(args.ends_with("disk projects"));
}

#[test]
fn ps_line_keeps_the_whole_command_line() {
    let line = "  47797 go run ./cmd/campaign --output /tmp/run/seed-101";
    let (pid, name, args) = parse_ps_line(line).unwrap();
    assert_eq!(pid, 47797);
    assert_eq!(name, "go");
    assert!(
        args.contains("/tmp/run/seed-101"),
        "argv tail was dropped: {args}"
    );
}

#[test]
fn ps_line_rejects_junk() {
    assert!(parse_ps_line("").is_none());
    assert!(parse_ps_line("PID ARGS").is_none());
    assert!(parse_ps_line("1234").is_none());
    assert!(parse_ps_line("1234   ").is_none());
}

const LSOF: &str = "p41\ncsh\nfcwd\nn/tmp/busy/a/b\np42\ncvim\nfcwd\nn/tmp/target-old\n";
const PS_ARGS: &str = "  50 go run --output /tmp/run/build-output\n  99 wsctl disk\n";

fn snapshot() -> Liveness {
    Liveness::snapshot(&Some(LSOF.to_string()), &Some(PS_ARGS.to_string()), 99)
}

#[test]
fn empty_snapshot_reports_nothing_busy() {
    let live = Liveness::empty();
    assert!(!live.is_busy("/tmp/x"));
    assert!(live.check("/tmp/x").is_empty());
    assert!(!Liveness::snapshot(&None, &None, 1).is_busy("/tmp/busy"));
}

#[test]
fn detects_a_process_sitting_in_the_directory() {
    let live = snapshot();
    let reasons = live.check("/tmp/busy/a/b");
    assert!(
        reasons.iter().any(|r| matches!(r, Busy::Cwd { pid: 41, .. })),
        "{reasons:?}"
    );
    assert!(live.is_busy("/tmp/busy/a/b"));
}

#[test]
fn detects_a_path_named_on_a_command_line() {
    let reasons = snapshot().check("/tmp/run/build-output");
    assert!(
        reasons.iter().any(|r| matches!(r, Busy::Argv { pid: 50, .. })),
        "{reasons:?}"
    );
    assert!(reasons[0].describe().contains("go"));
}

#[test]
fn a_parent_directory_counts_as_busy() {
    // The whole point: deleting the parent would take the live child with it.
    assert!(snapshot()
        .check("/tmp/busy")
        .iter()
        .any(|r| matches!(r, Busy::Cwd { pid: 41, .. })));
}

#[test]
fn an_unrelated_directory_is_not_busy() {
    let live = snapshot();
    assert!(live.is_busy("/tmp/busy"), "busy dir should be flagged");
    assert!(!live.is_busy("/tmp/quiet"), "quiet dir wrongly flagged busy");
}

#[test]
fn sibling_prefix_does_not_count_as_a_child() {
    // "/tmp/target" must not match "/tmp/target-old".
    let live = snapshot();
    assert!(!live.is_busy("/tmp/target"));
    assert!(live.is_busy("/tmp/target-old"));
}

#[test]
fn the_asking_process_is_left_out() {
    assert_eq!(process_argv(PS_ARGS, 99).len(), 1);
    assert_eq!(process_argv(PS_ARGS, 1).len(), 2);
    let cwds = process_cwds(LSOF);
    assert_eq!(cwds[1], (42, "vim".to_string(), "/tmp/target-old".to_string()));
}

const SAMPLE: &str = r#"<plist version="1.0">
<dict>
	<key>APFSContainerFree</key>
	<integer>76281798656</integer>
	<key>APFSContainerSize</key>
	<integer>494384795648</integer>
	<key>DeviceIdentifier</key>
	<string>disk3s5</string>
</dict>
</plist>"#;

#[test]
fn reads_integers_by_key() {
    assert_eq!(plist_u64(SAMPLE, "APFSContainerFree"), Some(76281798656));
    assert_eq!(plist_u64(SAMPLE, "APFSContainerSize"), Some(494384795648));
    assert_eq!(plist_u64(SAMPLE, "Missing"), None);
}

#[test]
fn refuses_a_key_whose_value_is_not_an_integer() {
    assert_eq!(plist_u64(SAMPLE, "DeviceIdentifier"), None);
}

#[test]
fn other_volumes_absorbs_what_the_data_volume_does_not_hold() {
    // The container holds System, Preboot, Recovery and VM too. Without
    // this row those bytes read as an unexplained gap between the disk
    // size and everything the sweep can see.
    let overview = DiskOverview {
        total: 494_384_795_648,
        free: 76_281_798_656,
        data_used: 385_784_758_272,
        other_volumes: 494_384_795_648u64 - 76_281_798_656 - 385_784_758_272,
    };
    assert_eq!(overview.used(), 418_102_996_992);
    assert_eq!(overview.data_used + overview.other_volumes, overview.used());
}

const DF: &str = "Filesystem 1024-blocks Used Available Capacity Mounted on\n\
    /dev/disk3s5 482797652 376742928 74493944 84% /System/Volumes/Data\n";

#[test]
fn the_real_disk_adds_up() {
    let overview = disk_overview(DF, &Some(SAMPLE.to_string())).expect("df should work");
    assert!(overview.total > 0);
    assert_eq!(
        overview.data_used + overview.other_volumes,
        overview.used(),
        "the parts must equal the whole"
    );
    assert_eq!(overview.total, 494_384_795_648);
    assert_eq!(overview.data_used, 376_742_928 * 1024);
    assert_eq!(statfs(DF).unwrap().0, 482_797_652 * 1024);
    assert!(disk_overview("", &None).is_none());
    assert_ne!(df_path(true), df_path(false));
}

#[test]
fn format_size_picks_units() {
    assert_eq!(format_size(0), "0 B");
    assert_eq!(format_size(512), "512 B");
    assert_eq!(format_size(2048), "2 KB");
    assert_eq!(format_size(2 * 1024 * 1024), "2 MB");
    assert_eq!(
        format_size(3 * 1024 * 1024 * 1024 + 512 * 1024 * 1024),
        "3.5 GB"
    );
}

#[test]
fn sizes_change_units_at_each_power() {
    assert_eq!(format_size(1023), "1023 B");
    assert_eq!(format_size(1024), "1 KB");
    assert_eq!(format_size(1024 * 1024 * 1024), "1.0 GB");
}

#[test]
fn dir_size_returns_zero_for_missing_path() {
    assert_eq!(dir_size(""), 0);
    assert_eq!(dir_size("du: no such file"), 0);
}

#[test]
fn dir_size_measures_known_files() {
    assert_eq!(dir_size("8\t/tmp/x\n"), 8 * 1024);
}

#[test]
fn the_newest_change_counts() {
    let at = |secs| Some(Moment::from_secs(secs));
    assert_eq!(newest_mtime(&vec![at(3), None, at(9), at(5)]), at(9));
    assert_eq!(newest_mtime(&vec![None]), None);
    assert_eq!(idle_days(at(NOW - 3 * 86_400 - 5), now()), Some(3));
    assert_eq!(idle_days(at(NOW + 5), now()), Some(0));
    assert_eq!(idle_days(None, now()), None);
}

fn report_at(secs_ago: u64) -> Report {
    Report {
        schema: SCHEMA,
        generated_at: NOW - secs_ago,
        roots: Vec::new(),
        categories: Vec::new(),
        projects: Vec::new(),
    }
}

#[test]
fn age_is_derived_not_stored() {
    let report = report_at(7200);
    let age = report.age(now());
    assert!(
        (7195..=7205).contains(&age.as_secs()),
        "got {}s",
        age.as_secs()
    );
}

fn snap(last_active: Option<u64>) -> ProjectSnap {
    ProjectSnap {
        root: "/tmp/app".to_string(),
        kind: ProjectKind::Cargo,
        artifacts: vec![ArtifactSnap {
            path: "/tmp/app/target".to_string(),
            size: 9000,
        }],
        last_active,
    }
}

#[test]
fn round_trips_through_json() {
    let report = Report {
        generated_at: 1_700_000_000,
        categories: vec![CategorySnap {
            name: "Rust".into(),
            total_size: 4096,
            paths: vec![PathSnap {
                label: "cargo".into(),
                path: "/tmp/cargo".into(),
                size: 4096,
            }],
        }],
        projects: vec![snap(Some(1_699_000_000))],
        ..report_at(0)
    };
    let categories = report.to_categories();
    assert_eq!(categories[0].name, "Rust");
    assert_eq!(categories[0].paths[0].size, 4096);
    let projects = report.to_projects();
    assert_eq!(projects[0].kind, ProjectKind::Cargo);
    assert_eq!(projects[0].artifact_size(), 9000);
    assert!(projects[0].last_active.is_some());

    let again = generate(report.to_audit(), projects, now());
    assert_eq!(again.generated_at, NOW);
    assert_eq!(again.categories[0].paths[0].path, "/tmp/cargo");
    assert_eq!(again.projects[0].last_active, Some(1_699_000_000));
}

#[test]
fn idle_days_recompute_as_the_cache_ages() {
    // The reason last_active is an instant: a cache written two days ago
    // must report two more days of idleness, not the number it froze.
    let report = Report {
        generated_at: 0,
        projects: vec![snap(Some(NOW - 10 * 86_400))],
        ..report_at(0)
    };

    let project = &report.to_projects()[0];
    assert_eq!(project.idle_days(now()), Some(10));

    let in_a_week = Moment::from_secs(NOW + 7 * 86_400);
    assert_eq!(project.idle_days(in_a_week), Some(17));
}

#[test]
fn wrong_schema_is_rejected() {
    let mut report = report_at(60);
    report.schema = SCHEMA + 1;
    assert!(load(Some(report), now()).is_none(), "guard must reject this");
    assert!(load(Some(report_at(60)), now()).is_some());
    assert!(load(None, now()).is_none());
    assert!(load(Some(report_at(MAX_AGE + 60)), now()).is_none(), "too old");
}

#[test]
fn a_cache_that_may_be_used_says_how_old_it_is() {
    let (_, source) = load_or_refresh(Some(report_at(60)), false, now()).unwrap();
    assert_eq!(source, Source::Cache { age: Span::from_secs(60) });
    assert!(load_or_refresh(Some(report_at(60)), true, now()).is_none());
}

#[test]
fn cache_lives_outside_the_caches_directory() {
    // wsctl's own cleanup empties ~/Library/Caches, so the report must
    // not live there or it would delete its own cache.
    let data = Some("/Users/me/Library/Application Support".to_string());
    let path = cache_path(&data).expect("a data dir");
    assert!(!path.contains("/Caches/"), "report would be self-deleted at {path}");
    assert!(path.ends_with("wsctl/disk-report.json"), "{path}");
    assert_eq!(cache_path(&None), None);
}

#[test]
fn stale_paths_flags_dirs_touched_since_the_scan() {
    // Scan claims to predate the directory.
    let report = Report { generated_at: 1, projects: vec![snap(None)], ..report_at(0) };
    assert_eq!(report.stale_paths(&vec![Some(now())]), vec!["/tmp/app/target"]);
    assert!(report.stale_paths(&vec![Some(Moment::from_secs(1))]).is_empty());
    assert!(report.stale_paths(&vec![None]).is_empty());
}

#[test]
fn humanize_age_reads_naturally() {
    assert_eq!(humanize_age(Span::from_secs(10)), "just now");
    assert_eq!(humanize_age(Span::from_secs(600)), "10m ago");
    assert_eq!(humanize_age(Span::from_secs(4 * 3600)), "4h ago");
    assert_eq!(humanize_age(Span::from_secs(3 * 86_400)), "3d ago");
}

#[test]
fn an_audit_adds_its_categories_up() {
    let audit = Audit {
        roots: Vec::new(),
        categories: vec![Category {
            name: "Rust".to_string(),
            paths: vec![CategoryPath { label: "a".to_string(), path: "/a".to_string(), size: 7 }],
            total_size: 7,
        }],
    };
    assert_eq!(audit.attributed(), 7);
    assert_eq!(audit.measured(), 0);
}

fn file(path: &str, size: u64, modified: u64) -> TreeEntry {
    TreeEntry {
        name: path.rsplit('/').next().unwrap().to_string(),
        path: path.to_string(),
        kind: TreeKind::File,
        is_file: true,
        is_dir: false,
        modified: Some(Moment::from_secs(modified)),
        size,
        entries: Vec::new(),
    }
}

fn dir(path: &str, entries: Vec<TreeEntry>) -> TreeEntry {
    let size = entries.iter().map(|e| e.size).sum();
    TreeEntry {
        kind: TreeKind::Directory,
        is_file: false,
        is_dir: true,
        entries,
        ..file(path, size, NOW)
    }
}

fn cargo_app(root: &str, sources: u64, built: u64) -> TreeEntry {
    dir(
        root,
        vec![
            file(&format!("{root}/Cargo.toml"), 10, sources),
            dir(&format!("{root}/src"), vec![file(&format!("{root}/src/main.rs"), 20, sources)]),
            dir(
                &format!("{root}/target"),
                vec![file(&format!("{root}/target/blob.rlib"), 9000, built)],
            ),
        ],
    )
}

#[test]
fn finds_a_cargo_project_with_a_target_dir() {
    let found = discover(&vec![dir("/w", vec![cargo_app("/w/app", NOW, NOW)])], 6);
    assert_eq!(found.len(), 1);
    assert_eq!(found[0].kind, ProjectKind::Cargo);
    assert_eq!(found[0].root, "/w/app");
    assert!(found[0].artifact_size() >= 5000);
}

#[test]
fn skips_a_project_with_no_artifacts() {
    let app = dir("/w/clean-app", vec![file("/w/clean-app/Cargo.toml", 10, NOW)]);
    assert!(classify(&app, ProjectKind::Cargo).is_none());
    assert!(discover(&vec![dir("/w", vec![app])], 6).is_empty());
}

#[test]
fn finds_a_cargo_project_nested_inside_another_project() {
    // Mirrors a Tauri layout: src-tauri/ sits inside a JS or Python app.
    let outer = dir(
        "/w/margin",
        vec![
            file("/w/margin/pyproject.toml", 10, NOW),
            file("/w/margin/app.py", 20, NOW),
            dir("/w/margin/.venv", vec![file("/w/margin/.venv/pkg.py", 3000, NOW)]),
            cargo_app("/w/margin/src-tauri", NOW, NOW),
        ],
    );
    let found = discover(&vec![dir("/w", vec![outer])], 6);

    let kinds: Vec<ProjectKind> = found.iter().map(|p| p.kind).collect();
    assert!(kinds.contains(&ProjectKind::Cargo), "got {kinds:?}");
    assert!(kinds.contains(&ProjectKind::Python), "got {kinds:?}");

    // Biggest first, so the cargo target leads.
    assert_eq!(found[0].kind, ProjectKind::Cargo);
    assert_eq!(found[0].root, "/w/margin/src-tauri");
}

#[test]
fn artifact_dirs_are_never_descended_into() {
    // A stray Cargo.toml vendored inside node_modules must not register
    // as a project of its own.
    let web = dir(
        "/w/web",
        vec![
            file("/w/web/package.json", 10, NOW),
            file("/w/web/index.js", 20, NOW),
            dir("/w/web/node_modules", vec![cargo_app("/w/web/node_modules/dep", NOW, NOW)]),
        ],
    );
    let found = discover(&vec![dir("/w", vec![web])], 8);
    assert_eq!(found.len(), 1);
    assert_eq!(found[0].kind, ProjectKind::Node);
    assert!(prunes("node_modules"));
}

#[test]
fn idle_days_counts_from_the_newest_source_file() {
    let found = discover(&vec![dir("/w", vec![cargo_app("/w/app", NOW, NOW)])], 6);
    let project = &found[0];

    // Sources were just written, so zero days idle right now.
    assert_eq!(project.idle_days(now()), Some(0));
    assert!(!project.is_idle_for(1, now()));

    // Ten days on, the same project reads as ten days idle.
    let later = Moment::from_secs(NOW + 10 * 86_400);
    assert_eq!(project.idle_days(later), Some(10));
    assert!(project.is_idle_for(7, later));
    assert!(!project.is_idle_for(30, later));
}

#[test]
fn fresh_artifacts_do_not_make_a_stale_project_look_active() {
    // The whole point of excluding artifacts from the activity signal:
    // a rebuild of untouched sources must not reset the idle clock.
    let app = cargo_app("/w/app", NOW - 30 * 86_400, NOW);
    assert_eq!(newest_source_mtime(&app), Some(Moment::from_secs(NOW - 30 * 86_400)));
    let found = discover(&vec![dir("/w", vec![app])], 6);
    let idle = found[0].idle_days(now()).unwrap();
    assert!(idle >= 29, "expected ~30 days idle, got {idle}");
}

#[test]
fn unknown_activity_is_never_treated_as_idle() {
    let project = Project {
        root: "/nowhere".to_string(),
        kind: ProjectKind::Cargo,
        artifacts: Vec::<Artifact>::new(),
        last_active: None,
    };
    assert_eq!(project.idle_days(now()), None);
    assert!(!project.is_idle_for(0, now()));
    assert!(!project.is_idle_for(365, now()));
    assert_eq!(ProjectKind::Cargo.label(), "cargo");
    assert!(!ProjectKind::Node.rebuild_hint().is_empty());
    assert_eq!(ProjectKind::Cargo.artifact_dirs(), ["target"]);
}

#[test]
fn projects_are_looked_for_where_work_is_kept() {
    let home = Some("/Users/me".to_string());
    assert!(default_roots(&home, true, false).contains(&"/Users/me/Workspace".to_string()));
    assert!(default_roots(&None, true, true).is_empty());
}

fn listed(name: &str, kind: Option<FileKind>, size: u64) -> ScanEntry {
    ScanEntry { name: name.to_string(), path: format!("/d/{name}"), kind, size }
}

#[test]
fn scan_dir_returns_empty_for_missing_path() {
    let result = scan_dir("/this/path/does/not/exist/xyz", &None);
    assert_eq!(result.total_size, 0);
    assert!(result.children.is_empty());
}

#[test]
fn scan_dir_sorts_children_by_size_descending() {
    let result = scan_dir(
        "/d",
        &Some(vec![
            listed("small.bin", Some(FileKind::Other), 8 * 1024),
            listed("big.bin", Some(FileKind::Other), 512 * 1024),
            listed("medium.bin", Some(FileKind::Directory), 64 * 1024),
        ]),
    );
    assert_eq!(result.children.len(), 3);
    assert_eq!(result.children[0].name, "big.bin");
    assert_eq!(result.children[1].name, "medium.bin");
    assert!(result.children[1].is_dir);
    assert_eq!(result.children[2].name, "small.bin");
    assert_eq!(result.total_size, 584 * 1024);
}

#[test]
fn scan_dir_does_not_follow_symlinks() {
    let result = scan_dir("/d", &Some(vec![listed("link", Some(FileKind::Link), 900)]));
    assert!(result.children.is_empty());
    assert_eq!(result.total_size, 0);
}

#[test]
fn a_time_before_the_epoch_is_no_activity() {
    let early = Moment { nanos: -1 };
    let project = |last_active| Project {
        root: "/p".to_string(),
        kind: ProjectKind::Cargo,
        artifacts: vec![],
        last_active,
    };
    let audit = Audit { roots: vec![], categories: vec![] };
    let report = generate(
        audit,
        vec![project(Some(early)), project(Some(Moment { nanos: 1_999_999_999 })), project(None)],
        now(),
    );
    let kept: Vec<Option<u64>> = report.projects.iter().map(|p| p.last_active).collect();
    assert_eq!(kept, [None, Some(1), None]);
    assert_eq!(report.generated_at, NOW);
    let audit = Audit { roots: vec![], categories: vec![] };
    assert_eq!(generate(audit, vec![], early).generated_at, 0);
    assert_eq!(now().since(Moment { nanos: -2 }).nanos, NOW as u128 * 1_000_000_000 + 2);
    assert_eq!(early.since(Moment { nanos: -3 }).nanos, 2);
    assert_eq!(early.since(now()).nanos, 0);
}

#[test]
fn a_process_is_reported_once_and_for_working_there_first() {
    let lsof = "p7\nctmux\nfcwd\nn/w/deep\nn/w\np8\ncsh\nfcwd\nn/elsewhere\n";
    let ps = "  7 tail -f /w/log\n  9 cat /w/log\n  9 cat /w/other\n";
    let live = Liveness::snapshot(&Some(lsof.to_string()), &Some(ps.to_string()), 1);
    let found = live.check("/w");
    assert_eq!(found.len(), 2, "{found:?}");
    assert!(matches!(&found[0], Busy::Cwd { pid: 7, .. }));
    assert!(matches!(&found[1], Busy::Argv { pid: 9, .. }));
    assert!(live.is_busy("/w"));
    assert!(live.check("/nowhere").is_empty() && !live.is_busy("/nowhere"));
}
